use rdf2hdt::builder::{build_hdt, Source};
use rdf2hdt::dictionary::Triple;
use std::collections::BTreeSet;
use std::io::BufReader;

fn triple(s: &str, p: &str, o: &str) -> Triple {
    Triple { subject: s.to_string(), predicate: p.to_string(), object: o.to_string() }
}

fn source() -> Source {
    Source {
        base_iri: "file:///data/example.nt".to_string(),
        original_size: 4096,
        issued: "2024-05-01T12:00:00+0000".to_string(),
    }
}

fn read_back(bytes: &[u8]) -> BTreeSet<(String, String, String)> {
    let hdt = hdt::Hdt::read(BufReader::new(bytes)).expect("the container is read");
    hdt.triples_all().map(|t| (t[0].to_string(), t[1].to_string(), t[2].to_string())).collect()
}

fn as_set(triples: &[Triple]) -> BTreeSet<(String, String, String)> {
    triples.iter().map(|t| (t.subject.clone(), t.predicate.clone(), t.object.clone())).collect()
}

#[test]
fn reader_finds_the_single_triple() {
    let triples = vec![triple("http://ex/a", "http://ex/p", "\"v\"")];
    let bytes = build_hdt(&triples, &source()).unwrap();
    assert_eq!(read_back(&bytes), as_set(&triples));
}

#[test]
fn reader_finds_shared_terms() {
    let triples = vec![
        triple("http://ex/a", "http://ex/p", "http://ex/b"),
        triple("http://ex/b", "http://ex/p", "http://ex/c"),
        triple("http://ex/b", "http://ex/q", "\"hi\"@en"),
        triple("http://ex/b", "http://ex/q", "\"hi\""),
        triple("_:b0", "http://ex/q", "\"1\"^^<http://www.w3.org/2001/XMLSchema#int>"),
        triple("http://ex/a", "http://ex/p", "http://ex/b"),
    ];
    let bytes = build_hdt(&triples, &source()).unwrap();
    assert_eq!(read_back(&bytes), as_set(&triples));
}

#[test]
fn reader_finds_terms_across_blocks() {
    let mut triples = Vec::new();
    for i in 0..100 {
        let s = format!("http://example.org/resource/{}", i % 37);
        let p = format!("http://example.org/property/{}", i % 5);
        let o = if i % 3 == 0 {
            format!("http://example.org/resource/{}", (i * 7) % 41)
        } else {
            format!("\"value {}\"", i % 19)
        };
        triples.push(triple(&s, &p, &o));
    }
    let bytes = build_hdt(&triples, &source()).unwrap();
    assert_eq!(read_back(&bytes), as_set(&triples));
}

#[test]
fn reader_finds_long_shared_prefixes() {
    let stem = "x".repeat(300);
    let triples = vec![
        triple(&format!("http://ex/{}a", stem), "http://ex/p", "\"o\""),
        triple(&format!("http://ex/{}b", stem), "http://ex/p", "\"o\""),
        triple(&format!("http://ex/{}", stem), "http://ex/p", "\"o\""),
    ];
    let bytes = build_hdt(&triples, &source()).unwrap();
    assert_eq!(read_back(&bytes), as_set(&triples));
}

#[test]
fn reader_finds_terms_beyond_ascii() {
    let triples = vec![
        triple("http://ex/\u{e9}t\u{e9}", "http://ex/p", "\"\u{65e5}\u{672c}\"@ja"),
        triple("http://ex/\u{fc}ber", "http://ex/p", "\"\u{1f600}\""),
        triple("http://ex/zebra", "http://ex/q\u{df}", "\"caf\u{e9}\""),
    ];
    let bytes = build_hdt(&triples, &source()).unwrap();
    assert_eq!(read_back(&bytes), as_set(&triples));
}

#[test]
fn reader_accepts_the_container_of_no_triples() {
    let bytes = build_hdt(&Vec::new(), &source()).unwrap();
    let hdt = hdt::Hdt::read(BufReader::new(&bytes[..])).expect("the container is read");
    assert_eq!(hdt.dict.shared.num_strings, 0);
    assert_eq!(hdt.dict.subjects.num_strings, 0);
    assert_eq!(hdt.dict.predicates.num_strings, 0);
    assert_eq!(hdt.dict.objects.num_strings, 0);
}

#[test]
fn reader_sees_the_section_sizes() {
    let triples = vec![
        triple("http://ex/a", "http://ex/p", "http://ex/b"),
        triple("http://ex/b", "http://ex/p", "http://ex/c"),
        triple("http://ex/b", "http://ex/q", "http://ex/d"),
    ];
    let bytes = build_hdt(&triples, &source()).unwrap();
    let hdt = hdt::Hdt::read(BufReader::new(&bytes[..])).expect("the container is read");
    assert_eq!(hdt.dict.shared.num_strings, 1);
    assert_eq!(hdt.dict.subjects.num_strings, 1);
    assert_eq!(hdt.dict.predicates.num_strings, 2);
    assert_eq!(hdt.dict.objects.num_strings, 2);
    assert_eq!(hdt.header.format, "ntriples");
    assert_eq!(hdt.header.body.len(), 21);
}

#[test]
fn container_starts_with_the_global_control_block() {
    let bytes = build_hdt(&Vec::new(), &source()).unwrap();
    let expected = b"$HDT\x01<http://purl.org/HDT/hdt#HDTv1>\x00\x00\x76\x35";
    assert_eq!(&bytes[..expected.len()], &expected[..]);
}

#[test]
fn issue_time_changes_the_header_only() {
    let triples = vec![triple("http://ex/a", "http://ex/p", "\"v\"")];
    let mut later = source();
    later.issued = "2025-06-02T13:30:00+0000".to_string();
    let first = build_hdt(&triples, &source()).unwrap();
    let second = build_hdt(&triples, &later).unwrap();
    assert_eq!(first.len(), second.len());
    assert_ne!(first, second);
    let differing: Vec<usize> = (0..first.len()).filter(|&i| first[i] != second[i]).collect();
    let stamp = b"2024-05-01T12:00:00+0000";
    let at = (0..first.len() - stamp.len()).find(|&i| &first[i..i + stamp.len()] == stamp).unwrap();
    assert!(!differing.is_empty());
    assert!(differing.iter().all(|&i| at <= i && i < at + stamp.len()));
}
