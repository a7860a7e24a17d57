//! The header of a container: a small graph about the dataset, written as
//! N-Triples.

use crate::text::{append_decimal, append_escaped, decimal, escaped, lemma_decimal_needs_no_escape};
use crate::vocab::{
    DC_TERMS_FORMAT, DC_TERMS_ISSUED, HDT_CONTAINER, HDT_DICTIONARY, HDT_DICT_BLOCK_SIZE,
    HDT_DICT_MAPPING, HDT_DICT_SHARED_SO, HDT_DICT_SIZE_STRINGS, HDT_FORMAT_INFORMATION,
    HDT_NUM_TRIPLES, HDT_ORIGINAL_SIZE, HDT_PUBLICATION_INFORMATION, HDT_SIZE,
    HDT_STATISTICAL_INFORMATION, HDT_TRIPLES, HDT_TRIPLES_ORDER, HDT_TYPE_BITMAP, RDF_TYPE,
    VOID_DATASET, VOID_DISTINCT_OBJECTS, VOID_DISTINCT_SUBJECTS, VOID_PROPERTIES, VOID_TRIPLES,
};
use vstd::prelude::*;

verus! {

/// What the header says of a dataset.
pub struct Header {
    /// The IRI that stands for the dataset, without angle brackets.
    pub base_iri: String,
    /// The number of triples.
    pub num_triples: usize,
    /// The number of distinct predicates.
    pub num_predicates: u32,
    /// The number of distinct subjects.
    pub distinct_subjects: u32,
    /// The number of distinct objects.
    pub distinct_objects: u32,
    /// The number of terms that are both subject and object.
    pub num_shared: u32,
    /// The number of bytes of the terms of the dictionary.
    pub size_strings: u128,
    /// The number of bytes of the source.
    pub original_size: u64,
    /// The number of bytes of the dictionary and the triples as stored.
    pub hdt_size: usize,
    /// The time at which the container is made, in ISO 8601 with an offset.
    pub issued: String,
}

/// What the header says of a dataset, in numbers and sequences of
/// characters.
pub struct HeaderView {
    /// The IRI that stands for the dataset, without angle brackets.
    pub base_iri: Seq<char>,
    /// The number of triples.
    pub num_triples: nat,
    /// The number of distinct predicates.
    pub num_predicates: nat,
    /// The number of distinct subjects.
    pub distinct_subjects: nat,
    /// The number of distinct objects.
    pub distinct_objects: nat,
    /// The number of terms that are both subject and object.
    pub num_shared: nat,
    /// The number of bytes of the terms of the dictionary.
    pub size_strings: nat,
    /// The number of bytes of the source.
    pub original_size: nat,
    /// The number of bytes of the dictionary and the triples as stored.
    pub hdt_size: nat,
    /// The time at which the container is made.
    pub issued: Seq<char>,
}

impl View for Header {
    type V = HeaderView;

    open spec fn view(&self) -> HeaderView {
        HeaderView {
            base_iri: self.base_iri@,
            num_triples: self.num_triples as nat,
            num_predicates: self.num_predicates as nat,
            distinct_subjects: self.distinct_subjects as nat,
            distinct_objects: self.distinct_objects as nat,
            num_shared: self.num_shared as nat,
            size_strings: self.size_strings as nat,
            original_size: self.original_size as nat,
            hdt_size: self.hdt_size as nat,
            issued: self.issued@,
        }
    }
}

/// An IRI as N-Triples write it: between angle brackets.
pub open spec fn iri_ref(iri: Seq<char>) -> Seq<char> {
    seq!['<'] + iri + seq!['>']
}

/// A plain literal as N-Triples write it: between double quotes, with the
/// escapes that its characters need.
pub open spec fn plain_literal(value: Seq<char>) -> Seq<char> {
    seq!['"'] + escaped(value) + seq!['"']
}

/// A line of N-Triples: the subject and the object as they are written, the
/// predicate as an IRI.
pub open spec fn statement(subject: Seq<char>, predicate: Seq<char>, object: Seq<char>) -> Seq<
    char,
> {
    subject + seq![' '] + iri_ref(predicate) + seq![' '] + object + seq![' ', '.', '\n']
}

/// The header as N-Triples: the statements about the dataset, and after
/// them the one that says when the container was made.
pub open spec fn header_text(h: HeaderView) -> Seq<char> {
    header_facts(h) + statement(
        "_:publicationInformation"@,
        DC_TERMS_ISSUED@,
        plain_literal(h.issued),
    )
}

/// The statements of the header about the dataset: what it is, its
/// statistics, and the format of its dictionary and triples.
#[verifier::opaque]
pub open spec fn header_facts(h: HeaderView) -> Seq<char> {
    let base = iri_ref(h.base_iri);
    Seq::<char>::empty() + statement(base, RDF_TYPE@, iri_ref(HDT_CONTAINER@)) + statement(
        base,
        RDF_TYPE@,
        iri_ref(VOID_DATASET@),
    ) + statement(base, VOID_TRIPLES@, plain_literal(decimal(h.num_triples))) + statement(
        base,
        VOID_PROPERTIES@,
        plain_literal(decimal(h.num_predicates)),
    ) + statement(base, VOID_DISTINCT_SUBJECTS@, plain_literal(decimal(h.distinct_subjects)))
        + statement(base, VOID_DISTINCT_OBJECTS@, plain_literal(decimal(h.distinct_objects)))
        + statement(base, HDT_STATISTICAL_INFORMATION@, "_:statistics"@) + statement(
        base,
        HDT_PUBLICATION_INFORMATION@,
        "_:publicationInformation"@,
    ) + statement(base, HDT_FORMAT_INFORMATION@, "_:format"@) + statement(
        "_:format"@,
        HDT_DICTIONARY@,
        "_:dictionary"@,
    ) + statement("_:format"@, HDT_TRIPLES@, "_:triples"@) + statement(
        "_:dictionary"@,
        HDT_DICT_SHARED_SO@,
        plain_literal(decimal(h.num_shared)),
    ) + statement("_:dictionary"@, HDT_DICT_MAPPING@, plain_literal("1"@)) + statement(
        "_:dictionary"@,
        HDT_DICT_SIZE_STRINGS@,
        plain_literal(decimal(h.size_strings)),
    ) + statement("_:dictionary"@, HDT_DICT_BLOCK_SIZE@, plain_literal(decimal(16))) + statement(
        "_:triples"@,
        DC_TERMS_FORMAT@,
        iri_ref(HDT_TYPE_BITMAP@),
    ) + statement("_:triples"@, HDT_NUM_TRIPLES@, plain_literal(decimal(h.num_triples)))
        + statement("_:triples"@, HDT_TRIPLES_ORDER@, plain_literal("SPO"@)) + statement(
        "_:statistics"@,
        HDT_ORIGINAL_SIZE@,
        plain_literal(decimal(h.original_size)),
    ) + statement("_:statistics"@, HDT_SIZE@, plain_literal(decimal(h.hdt_size)))
}

/// The time of making is said in the last statement of the header and
/// nowhere else: headers that differ in it alone agree in all that precedes
/// that statement.
pub proof fn lemma_issue_time_is_last(a: HeaderView, b: HeaderView)
    requires
        a.base_iri == b.base_iri,
        a.num_triples == b.num_triples,
        a.num_predicates == b.num_predicates,
        a.distinct_subjects == b.distinct_subjects,
        a.distinct_objects == b.distinct_objects,
        a.num_shared == b.num_shared,
        a.size_strings == b.size_strings,
        a.original_size == b.original_size,
        a.hdt_size == b.hdt_size,
    ensures
        header_facts(a) == header_facts(b),
        header_text(a).take(header_facts(a).len() as int) == header_text(b).take(
            header_facts(b).len() as int,
        ),
{
    reveal(header_facts);
    let ia = statement("_:publicationInformation"@, DC_TERMS_ISSUED@, plain_literal(a.issued));
    let ib = statement("_:publicationInformation"@, DC_TERMS_ISSUED@, plain_literal(b.issued));
    assert((header_facts(a) + ia).take(header_facts(a).len() as int) =~= header_facts(a));
    assert((header_facts(b) + ib).take(header_facts(b).len() as int) =~= header_facts(b));
}

fn bracketed(iri: &str) -> (text: String)
    ensures
        text@ == iri_ref(iri@),
{
    proof {
        reveal_strlit("<");
        reveal_strlit(">");
    }
    let mut text = String::from_str("<");
    text.append(iri);
    text.append(">");
    assert(text@ =~= iri_ref(iri@));
    text
}

fn quoted(value: &str) -> (text: String)
    ensures
        text@ == plain_literal(value@),
{
    proof {
        reveal_strlit("\"");
    }
    let mut text = String::from_str("\"");
    append_escaped(value, &mut text);
    text.append("\"");
    assert(text@ =~= plain_literal(value@));
    text
}

fn quoted_number(n: u128) -> (text: String)
    ensures
        text@ == plain_literal(decimal(n as nat)),
{
    proof {
        reveal_strlit("\"");
    }
    proof {
        lemma_decimal_needs_no_escape(n as nat);
    }
    let mut text = String::from_str("\"");
    append_decimal(n, &mut text);
    text.append("\"");
    assert(text@ =~= plain_literal(decimal(n as nat)));
    text
}

fn append_statement(dest: &mut String, subject: &str, predicate: &str, object: &str)
    ensures
        final(dest)@ == old(dest)@ + statement(subject@, predicate@, object@),
{
    proof {
        reveal_strlit(" ");
        reveal_strlit(" .\n");
    }
    let predicate_ref = bracketed(predicate);
    dest.append(subject);
    dest.append(" ");
    dest.append(predicate_ref.as_str());
    dest.append(" ");
    dest.append(object);
    dest.append(" .\n");
    assert(dest@ =~= old(dest)@ + statement(subject@, predicate@, object@));
}

impl Header {
    /// The header as N-Triples.
    pub fn to_ntriples(&self) -> (text: String)
        ensures
            text@ == header_text(self@),
    {
        proof {
            reveal(header_facts);
        }
        let base = bracketed(self.base_iri.as_str());
        let container = bracketed(HDT_CONTAINER);
        let dataset = bracketed(VOID_DATASET);
        let bitmap = bracketed(HDT_TYPE_BITMAP);
        let triples = quoted_number(self.num_triples as u128);
        let predicates = quoted_number(self.num_predicates as u128);
        let subjects = quoted_number(self.distinct_subjects as u128);
        let objects = quoted_number(self.distinct_objects as u128);
        let shared = quoted_number(self.num_shared as u128);
        let size_strings = quoted_number(self.size_strings);
        let block_size = quoted_number(16);
        let original_size = quoted_number(self.original_size as u128);
        let hdt_size = quoted_number(self.hdt_size as u128);
        let mapping = quoted("1");
        let order = quoted("SPO");
        let issued = quoted(self.issued.as_str());
        let mut text = String::new();
        append_statement(&mut text, base.as_str(), RDF_TYPE, container.as_str());
        append_statement(&mut text, base.as_str(), RDF_TYPE, dataset.as_str());
        append_statement(&mut text, base.as_str(), VOID_TRIPLES, triples.as_str());
        append_statement(&mut text, base.as_str(), VOID_PROPERTIES, predicates.as_str());
        append_statement(&mut text, base.as_str(), VOID_DISTINCT_SUBJECTS, subjects.as_str());
        append_statement(&mut text, base.as_str(), VOID_DISTINCT_OBJECTS, objects.as_str());
        append_statement(&mut text, base.as_str(), HDT_STATISTICAL_INFORMATION, "_:statistics");
        append_statement(
            &mut text,
            base.as_str(),
            HDT_PUBLICATION_INFORMATION,
            "_:publicationInformation",
        );
        append_statement(&mut text, base.as_str(), HDT_FORMAT_INFORMATION, "_:format");
        append_statement(&mut text, "_:format", HDT_DICTIONARY, "_:dictionary");
        append_statement(&mut text, "_:format", HDT_TRIPLES, "_:triples");
        append_statement(&mut text, "_:dictionary", HDT_DICT_SHARED_SO, shared.as_str());
        append_statement(&mut text, "_:dictionary", HDT_DICT_MAPPING, mapping.as_str());
        append_statement(&mut text, "_:dictionary", HDT_DICT_SIZE_STRINGS, size_strings.as_str());
        append_statement(&mut text, "_:dictionary", HDT_DICT_BLOCK_SIZE, block_size.as_str());
        append_statement(&mut text, "_:triples", DC_TERMS_FORMAT, bitmap.as_str());
        append_statement(&mut text, "_:triples", HDT_NUM_TRIPLES, triples.as_str());
        append_statement(&mut text, "_:triples", HDT_TRIPLES_ORDER, order.as_str());
        append_statement(&mut text, "_:statistics", HDT_ORIGINAL_SIZE, original_size.as_str());
        append_statement(&mut text, "_:statistics", HDT_SIZE, hdt_size.as_str());
        append_statement(&mut text, "_:publicationInformation", DC_TERMS_ISSUED, issued.as_str());
        text
    }
}

} // verus!
