use rdf2hdt::bitmap_triples::{
    sort_triples, triple_le, BitmapTriples, EncoderInvariantViolation, Violation,
};
use rdf2hdt::builder::{build_hdt, encode_triples, Source};
use rdf2hdt::dictionary::{FourSectDict, Triple};
use rdf2hdt::term_set::TermSet;

fn triple(s: &str, p: &str, o: &str) -> Triple {
    Triple { subject: s.to_string(), predicate: p.to_string(), object: o.to_string() }
}

fn terms(set: &TermSet) -> Vec<String> {
    (0..set.len()).map(|i| set.term(i).clone()).collect()
}

fn source() -> Source {
    Source {
        base_iri: "file:///data/example.nt".to_string(),
        original_size: 123,
        issued: "2024-05-01T12:00:00+0000".to_string(),
    }
}

#[test]
fn single_triple_has_one_term_per_role() {
    let triples = vec![triple("http://ex/a", "http://ex/p", "\"v\"")];
    let encoding = encode_triples(&triples).unwrap();
    let d = &encoding.dictionary;
    assert_eq!(terms(d.shared()), Vec::<String>::new());
    assert_eq!(terms(d.subjects()), vec!["http://ex/a".to_string()]);
    assert_eq!(terms(d.objects()), vec!["\"v\"".to_string()]);
    assert_eq!(terms(d.predicates()), vec!["http://ex/p".to_string()]);
    let b = &encoding.triples;
    assert_eq!(b.y(), &vec![1u32]);
    assert_eq!(b.z(), &vec![1u32]);
    assert_eq!(b.by(), &vec![true]);
    assert_eq!(b.bz(), &vec![true]);
}

#[test]
fn subject_that_is_object_is_shared() {
    let triples = vec![
        triple("http://ex/a", "http://ex/p", "http://ex/b"),
        triple("http://ex/b", "http://ex/p", "http://ex/c"),
    ];
    let encoding = encode_triples(&triples).unwrap();
    let d = &encoding.dictionary;
    assert_eq!(terms(d.shared()), vec!["http://ex/b".to_string()]);
    assert_eq!(terms(d.subjects()), vec!["http://ex/a".to_string()]);
    assert_eq!(terms(d.objects()), vec!["http://ex/c".to_string()]);
    assert_eq!(terms(d.predicates()), vec!["http://ex/p".to_string()]);
    assert_eq!(d.subject_id("http://ex/b"), 1);
    assert_eq!(d.subject_id("http://ex/a"), 2);
    assert_eq!(d.object_id("http://ex/b"), 1);
    assert_eq!(d.object_id("http://ex/c"), 2);
    assert_eq!(d.predicate_id("http://ex/p"), 1);
    assert_eq!(d.encode(&triples), vec![(2, 1, 1), (1, 1, 2)]);
    let b = &encoding.triples;
    assert_eq!(b.y(), &vec![1u32, 1]);
    assert_eq!(b.z(), &vec![2u32, 1]);
    assert_eq!(b.by(), &vec![true, true]);
    assert_eq!(b.bz(), &vec![true, true]);
}

#[test]
fn one_subject_two_predicates() {
    let triples = vec![
        triple("http://ex/a", "http://ex/p", "http://ex/b"),
        triple("http://ex/a", "http://ex/p", "http://ex/c"),
        triple("http://ex/a", "http://ex/q", "http://ex/b"),
    ];
    let encoding = encode_triples(&triples).unwrap();
    let d = &encoding.dictionary;
    assert_eq!(d.num_shared(), 0);
    assert_eq!(terms(d.subjects()), vec!["http://ex/a".to_string()]);
    assert_eq!(terms(d.objects()), vec!["http://ex/b".to_string(), "http://ex/c".to_string()]);
    assert_eq!(terms(d.predicates()), vec!["http://ex/p".to_string(), "http://ex/q".to_string()]);
    assert_eq!(d.encode(&triples), vec![(1, 1, 1), (1, 1, 2), (1, 2, 1)]);
    let b = &encoding.triples;
    assert_eq!(b.y(), &vec![1u32, 2]);
    assert_eq!(b.z(), &vec![1u32, 2, 1]);
    assert_eq!(b.by(), &vec![false, true]);
    assert_eq!(b.bz(), &vec![false, true, true]);
}

#[test]
fn no_triples_give_empty_sections_and_closing_bits() {
    let triples: Vec<Triple> = Vec::new();
    let encoding = encode_triples(&triples).unwrap();
    let d = &encoding.dictionary;
    assert_eq!(d.num_shared(), 0);
    assert_eq!(d.num_subjects(), 0);
    assert_eq!(d.num_objects(), 0);
    assert_eq!(d.num_predicates(), 0);
    let b = &encoding.triples;
    assert_eq!(b.y(), &Vec::<u32>::new());
    assert_eq!(b.z(), &Vec::<u32>::new());
    assert_eq!(b.by(), &vec![true]);
    assert_eq!(b.bz(), &vec![true]);
    assert!(build_hdt(&triples, &source()).is_ok());
}

#[test]
fn duplicate_triples_are_encoded_once() {
    let triples = vec![
        triple("http://ex/a", "http://ex/p", "http://ex/b"),
        triple("http://ex/a", "http://ex/p", "http://ex/b"),
    ];
    let encoding = encode_triples(&triples).unwrap();
    assert_eq!(encoding.triples.num_triples(), 1);
    assert_eq!(encoding.triples.z(), &vec![1u32]);
    assert_eq!(encoding.triples.bz(), &vec![true]);
}

#[test]
fn literal_with_and_without_language_tag_are_two_terms() {
    let triples = vec![
        triple("http://ex/a", "http://ex/p", "\"hi\""),
        triple("http://ex/a", "http://ex/p", "\"hi\"@en"),
    ];
    let d = FourSectDict::build(&triples).unwrap();
    assert_eq!(terms(d.objects()), vec!["\"hi\"".to_string(), "\"hi\"@en".to_string()]);
    assert_eq!(d.num_objects(), 2);
}

#[test]
fn identifiers_are_within_the_dictionary() {
    let triples = vec![
        triple("http://ex/c", "http://ex/q", "http://ex/a"),
        triple("http://ex/a", "http://ex/p", "http://ex/b"),
        triple("http://ex/b", "http://ex/p", "\"x\""),
    ];
    let d = FourSectDict::build(&triples).unwrap();
    assert_eq!(d.num_subjects(), 3);
    assert_eq!(d.num_objects(), 3);
    assert_eq!(d.num_predicates(), 2);
    assert_eq!(d.num_shared(), 2);
    for (s, p, o) in d.encode(&triples) {
        assert!(1 <= s && s <= d.num_subjects());
        assert!(1 <= p && p <= d.num_predicates());
        assert!(1 <= o && o <= d.num_objects());
    }
    assert_eq!(d.subject_id("http://ex/zzz"), 0);
    assert_eq!(d.predicate_id("http://ex/a"), 0);
}

#[test]
fn triples_encoder_sorts_its_input() {
    let b = BitmapTriples::new(vec![(2, 1, 1), (1, 2, 3), (1, 1, 2), (1, 2, 1)]).unwrap();
    assert_eq!(b.y(), &vec![1u32, 2, 1]);
    assert_eq!(b.z(), &vec![2u32, 1, 3, 1]);
    assert_eq!(b.by(), &vec![false, true, true]);
    assert_eq!(b.bz(), &vec![true, false, true, true]);
}

#[test]
fn triples_encoder_rejects_zero_identifier() {
    let r = BitmapTriples::from_sorted(&vec![(1, 1, 1), (1, 0, 2)]);
    assert_eq!(r.err(), Some(EncoderInvariantViolation { index: 1, kind: Violation::ZeroId }));
}

#[test]
fn triples_encoder_rejects_subject_gap() {
    let r = BitmapTriples::from_sorted(&vec![(1, 1, 1), (3, 1, 1)]);
    assert_eq!(r.err(), Some(EncoderInvariantViolation { index: 1, kind: Violation::SubjectJump }));
    let r = BitmapTriples::from_sorted(&vec![(2, 1, 1)]);
    assert_eq!(r.err(), Some(EncoderInvariantViolation { index: 0, kind: Violation::SubjectJump }));
    let r = BitmapTriples::from_sorted(&vec![(1, 1, 1), (2, 1, 1), (1, 1, 1)]);
    assert_eq!(r.err(), Some(EncoderInvariantViolation { index: 2, kind: Violation::SubjectJump }));
}

#[test]
fn triples_encoder_rejects_regressions() {
    let r = BitmapTriples::from_sorted(&vec![(1, 2, 1), (1, 1, 1)]);
    assert_eq!(
        r.err(),
        Some(EncoderInvariantViolation { index: 1, kind: Violation::PredicateRegression })
    );
    let r = BitmapTriples::from_sorted(&vec![(1, 1, 2), (1, 1, 1)]);
    assert_eq!(
        r.err(),
        Some(EncoderInvariantViolation { index: 1, kind: Violation::ObjectRegression })
    );
}

#[test]
fn same_input_gives_same_bytes() {
    let triples = vec![
        triple("http://ex/a", "http://ex/p", "http://ex/b"),
        triple("http://ex/b", "http://ex/p", "http://ex/c"),
    ];
    let first = build_hdt(&triples, &source()).unwrap();
    let second = build_hdt(&triples, &source()).unwrap();
    assert_eq!(first, second);
}

fn decode(b: &BitmapTriples) -> Vec<(u32, u32, u32)> {
    let ones = |bits: &Vec<bool>, n: usize| bits[..n].iter().filter(|bit| **bit).count();
    (0..b.z().len())
        .map(|k| {
            let pair = ones(b.bz(), k);
            let subject = 1 + ones(b.by(), pair) as u32;
            (subject, b.y()[pair], b.z()[k])
        })
        .collect()
}

#[test]
fn bitmap_triples_decode_to_the_sorted_list() {
    let sorted = vec![
        (1, 1, 1),
        (1, 1, 4),
        (1, 3, 2),
        (2, 2, 2),
        (3, 1, 1),
        (3, 1, 2),
        (3, 2, 1),
        (4, 7, 9),
    ];
    let mut shuffled = sorted.clone();
    shuffled.reverse();
    shuffled.swap(1, 5);
    let b = BitmapTriples::new(shuffled).unwrap();
    assert_eq!(decode(&b), sorted);
    assert_eq!(b.y().len(), b.by().len());
    assert_eq!(b.z().len(), b.bz().len());
    assert_eq!(b.by().iter().filter(|bit| **bit).count(), 4);
    assert_eq!(b.bz().iter().filter(|bit| **bit).count(), b.y().len());
}

#[test]
fn bitmap_triples_decode_without_the_repeats() {
    let b = BitmapTriples::from_sorted(&vec![(1, 1, 1), (1, 1, 1), (1, 2, 1), (1, 2, 1), (2, 1, 1)])
        .unwrap();
    assert_eq!(decode(&b), vec![(1, 1, 1), (1, 2, 1), (2, 1, 1)]);
    assert_eq!(b.num_triples(), 3);
}

#[test]
fn triples_are_sorted_by_subject_predicate_object() {
    let mut state: u64 = 0x9e3779b97f4a7c15;
    let mut given: Vec<(u32, u32, u32)> = Vec::new();
    for _ in 0..3000 {
        state ^= state << 13;
        state ^= state >> 7;
        state ^= state << 17;
        given.push(((state % 7) as u32, ((state >> 8) % 5) as u32, ((state >> 16) % 11) as u32));
    }
    let mut expected = given.clone();
    expected.sort();
    assert_eq!(sort_triples(given), expected);
    assert_eq!(sort_triples(Vec::new()), Vec::new());
    assert_eq!(sort_triples(vec![(3, 2, 1)]), vec![(3, 2, 1)]);
}

#[test]
fn triples_compare_component_by_component() {
    assert!(triple_le((1, 9, 9), (2, 0, 0)));
    assert!(triple_le((1, 1, 9), (1, 2, 0)));
    assert!(triple_le((1, 1, 1), (1, 1, 2)));
    assert!(triple_le((1, 1, 1), (1, 1, 1)));
    assert!(!triple_le((2, 0, 0), (1, 9, 9)));
    assert!(!triple_le((1, 2, 0), (1, 1, 9)));
    assert!(!triple_le((1, 1, 2), (1, 1, 1)));
}
