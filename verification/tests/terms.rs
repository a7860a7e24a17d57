use rdf2hdt::dictionary::Triple;
use rdf2hdt::rdf_reader::{
    append_ntriples_line, flatten, plan_inputs, InputPlan, InvalidInput, Quad, RdfFormat, Term,
};
use rdf2hdt::term_set::TermSet;
use rdf2hdt::text::{
    append_escaped, compare_terms, decimal_string, parting, suffix_bytes, TermOrder,
};

fn strings(items: &[&str]) -> Vec<String> {
    items.iter().map(|t| t.to_string()).collect()
}

fn terms(set: &TermSet) -> Vec<String> {
    (0..set.len()).map(|i| set.term(i).clone()).collect()
}

#[test]
fn term_set_sorts_and_keeps_each_term_once() {
    let set = TermSet::from_terms(strings(&["b", "a", "c", "a", "b", "ab", ""]));
    assert_eq!(terms(&set), strings(&["", "a", "ab", "b", "c"]));
    assert_eq!(set.len(), 5);
}

#[test]
fn term_set_orders_by_scalar_value() {
    let set = TermSet::from_terms(strings(&["\u{e9}", "z", "Z", "\u{1f600}", "\u{ffff}"]));
    assert_eq!(terms(&set), strings(&["Z", "z", "\u{e9}", "\u{ffff}", "\u{1f600}"]));
}

#[test]
fn term_set_finds_what_it_holds() {
    let set = TermSet::from_terms(strings(&["pear", "apple", "fig", "plum"]));
    assert_eq!(set.position("apple"), Some(0));
    assert_eq!(set.position("fig"), Some(1));
    assert_eq!(set.position("pear"), Some(2));
    assert_eq!(set.position("plum"), Some(3));
    assert_eq!(set.position("grape"), None);
    assert_eq!(set.position(""), None);
    assert!(set.contains("plum"));
    assert!(!set.contains("plu"));
    assert_eq!(TermSet::new().position("a"), None);
}

#[test]
fn term_sets_intersect_and_subtract() {
    let left = TermSet::from_terms(strings(&["a", "b", "c", "d"]));
    let right = TermSet::from_terms(strings(&["d", "b", "x"]));
    assert_eq!(terms(&left.intersection(&right)), strings(&["b", "d"]));
    assert_eq!(terms(&left.difference(&right)), strings(&["a", "c"]));
    assert_eq!(terms(&right.difference(&left)), strings(&["x"]));
}

#[test]
fn term_set_counts_utf8_bytes() {
    let set = TermSet::from_terms(strings(&["ab", "\u{e9}", "", "\u{1f600}"]));
    assert_eq!(set.size_in_bytes(), 2 + 2 + 0 + 4);
}

#[test]
fn terms_compare_by_first_difference_then_length() {
    assert_eq!(compare_terms("a", "b"), TermOrder::Less);
    assert_eq!(compare_terms("b", "a"), TermOrder::Greater);
    assert_eq!(compare_terms("ab", "ab"), TermOrder::Equal);
    assert_eq!(compare_terms("ab", "abc"), TermOrder::Less);
    assert_eq!(compare_terms("abc", "ab"), TermOrder::Greater);
    assert_eq!(compare_terms("", ""), TermOrder::Equal);
    assert_eq!(compare_terms("z", "\u{e9}"), TermOrder::Less);
}

#[test]
fn parting_gives_the_shared_prefix_and_what_follows() {
    let p = parting("http://ex/a", "http://ex/b");
    assert_eq!(p.shared, 10);
    assert_eq!(p.left, Some('a'));
    assert_eq!(p.right, Some('b'));
    let p = parting("ab", "abc");
    assert_eq!((p.shared, p.left, p.right), (2, None, Some('c')));
    let p = parting("\u{e9}x", "\u{e9}y");
    assert_eq!(p.shared, 1);
}

#[test]
fn suffix_starts_at_a_character() {
    assert_eq!(suffix_bytes("\u{e9}t\u{e9}", 1), "t\u{e9}".as_bytes());
    assert_eq!(suffix_bytes("abc", 3), b"");
    assert_eq!(suffix_bytes("abc", 0), b"abc");
}

#[test]
fn decimal_numerals() {
    assert_eq!(decimal_string(0), "0");
    assert_eq!(decimal_string(9), "9");
    assert_eq!(decimal_string(10), "10");
    assert_eq!(decimal_string(1234567890), "1234567890");
    assert_eq!(decimal_string(u128::MAX), "340282366920938463463374607431768211455");
}

#[test]
fn dictionary_forms_of_terms() {
    assert_eq!(Term::Iri("http://example.org/x".to_string()).to_dictionary_form(), "http://example.org/x");
    assert_eq!(Term::BlankNode("b0".to_string()).to_dictionary_form(), "_:b0");
    assert_eq!(Term::SimpleLiteral("Red".to_string()).to_dictionary_form(), "\"Red\"");
    assert_eq!(
        Term::LanguageLiteral("hi".to_string(), "en".to_string()).to_dictionary_form(),
        "\"hi\"@en"
    );
    assert_eq!(
        Term::TypedLiteral("1".to_string(), "http://www.w3.org/2001/XMLSchema#int".to_string())
            .to_dictionary_form(),
        "\"1\"^^<http://www.w3.org/2001/XMLSchema#int>"
    );
}

#[test]
fn literal_with_tag_differs_from_literal_without() {
    let plain = Term::SimpleLiteral("hi".to_string()).to_dictionary_form();
    let tagged = Term::LanguageLiteral("hi".to_string(), "en".to_string()).to_dictionary_form();
    let other = Term::LanguageLiteral("hi".to_string(), "fr".to_string()).to_dictionary_form();
    assert_ne!(plain, tagged);
    assert_ne!(tagged, other);
}

#[test]
fn literals_are_escaped() {
    let mut text = String::from("x");
    append_escaped("a\"b\\c\nd\re\tf", &mut text);
    assert_eq!(text, "xa\\\"b\\\\c\\nd\\re\tf");
    assert_eq!(
        Term::SimpleLiteral("say \"hi\"".to_string()).to_dictionary_form(),
        "\"say \\\"hi\\\"\""
    );
}

fn quad(s: &str, p: &str, o: Term, g: Option<&str>) -> Quad {
    Quad {
        subject: Term::Iri(s.to_string()),
        predicate: Term::Iri(p.to_string()),
        object: o,
        graph: g.map(|name| Term::Iri(name.to_string())),
    }
}

#[test]
fn named_graph_is_dropped_and_reported() {
    let quads = vec![
        quad("http://ex/a", "http://ex/p", Term::SimpleLiteral("v".to_string()), None),
        quad("http://ex/b", "http://ex/p", Term::Iri("http://ex/c".to_string()), Some("http://ex/g")),
    ];
    let flat = flatten(&quads);
    assert!(flat.dropped_graph_names);
    assert_eq!(flat.triples.len(), 2);
    assert_eq!(flat.triples[0].subject, "http://ex/a");
    assert_eq!(flat.triples[0].object, "\"v\"");
    assert_eq!(flat.triples[1].subject, "http://ex/b");
    assert_eq!(flat.triples[1].predicate, "http://ex/p");
    assert_eq!(flat.triples[1].object, "http://ex/c");
}

#[test]
fn default_graph_alone_is_not_reported() {
    let quads = vec![quad("http://ex/a", "http://ex/p", Term::BlankNode("x".to_string()), None)];
    let flat = flatten(&quads);
    assert!(!flat.dropped_graph_names);
    assert_eq!(flat.triples[0].object, "_:x");
    assert!(!flatten(&Vec::new()).dropped_graph_names);
}

#[test]
fn triples_are_written_as_ntriples() {
    let mut text = String::new();
    append_ntriples_line(
        &Triple {
            subject: "http://ex/a".to_string(),
            predicate: "http://ex/p".to_string(),
            object: "\"v\"@en".to_string(),
        },
        &mut text,
    );
    append_ntriples_line(
        &Triple {
            subject: "_:b1".to_string(),
            predicate: "http://ex/p".to_string(),
            object: "http://ex/c".to_string(),
        },
        &mut text,
    );
    assert_eq!(text, "<http://ex/a> <http://ex/p> \"v\"@en .\n_:b1 <http://ex/p> <http://ex/c> .\n");
}

#[test]
fn formats_are_known_by_extension() {
    assert_eq!(RdfFormat::from_path("data.nt"), Some(RdfFormat::NTriples));
    assert_eq!(RdfFormat::from_path("dir/data.ttl"), Some(RdfFormat::Turtle));
    assert_eq!(RdfFormat::from_path("data.nq"), Some(RdfFormat::NQuads));
    assert_eq!(RdfFormat::from_path("data.trig"), Some(RdfFormat::TriG));
    assert_eq!(RdfFormat::from_path("data.rdf"), Some(RdfFormat::RdfXml));
    assert_eq!(RdfFormat::from_path(".nt"), Some(RdfFormat::NTriples));
    assert_eq!(RdfFormat::from_path("data.json"), None);
    assert_eq!(RdfFormat::from_path("data.nt.bak"), None);
    assert_eq!(RdfFormat::from_path("nt"), None);
    assert_eq!(RdfFormat::from_path(""), None);
}

#[test]
fn no_inputs_are_refused() {
    assert_eq!(plan_inputs(&Vec::new()), Err(InvalidInput::NoFiles));
}

#[test]
fn unknown_extension_is_refused() {
    assert_eq!(
        plan_inputs(&strings(&["a.ttl", "b.txt", "c.doc"])),
        Err(InvalidInput::UnknownExtension(1))
    );
}

#[test]
fn one_ntriples_file_passes_through() {
    assert_eq!(plan_inputs(&strings(&["a.nt"])), Ok(InputPlan::PassThrough));
}

#[test]
fn other_inputs_are_converted() {
    assert_eq!(plan_inputs(&strings(&["a.ttl"])), Ok(InputPlan::Convert(vec![RdfFormat::Turtle])));
    assert_eq!(
        plan_inputs(&strings(&["a.nt", "b.nq", "c.rdf", "d.trig"])),
        Ok(InputPlan::Convert(vec![
            RdfFormat::NTriples,
            RdfFormat::NQuads,
            RdfFormat::RdfXml,
            RdfFormat::TriG
        ]))
    );
}

#[test]
fn term_set_agrees_with_the_order_of_strings() {
    let mut state: u64 = 0x2545f4914f6cdd1d;
    let mut given: Vec<String> = Vec::new();
    for _ in 0..2000 {
        state ^= state << 13;
        state ^= state >> 7;
        state ^= state << 17;
        let len = (state % 6) as usize;
        let mut term = String::new();
        let mut bits = state >> 8;
        for _ in 0..len {
            let c = match bits % 5 {
                0 => 'a',
                1 => 'b',
                2 => '\u{e9}',
                3 => '\u{4e2d}',
                _ => '\u{1f600}',
            };
            term.push(c);
            bits /= 5;
        }
        given.push(term);
    }
    let mut expected = given.clone();
    expected.sort();
    expected.dedup();
    assert_eq!(terms(&TermSet::from_terms(given)), expected);
}
