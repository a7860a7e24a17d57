//! The container as a whole: from a list of triples to the bytes of an HDT
//! file.

use crate::bitmap_triples::{
    bitmap_triples, bitmap_triples_sections, decoded, encodable, lemma_bitmap_triples_round_trip,
    lemma_triple_order_total, lemma_without_repeats, triple_leq, triple_order, violation_at,
    without_repeats, BitmapTriples, BitmapTriplesView, EncoderInvariantViolation, TripleId,
};
use crate::checksum::append_bytes;
use crate::control_info::{
    control_block, dictionary_info, global_info, header_info, triples_info, ControlInfo,
};
use crate::dictionary::{
    decoded_terms, dictionary_for, dictionary_of, encoded_triple, encoded_triples, fits_ids,
    is_subject, lemma_encoded_ids_in_range, lemma_encoded_triple_round_trip, place_of,
    subject_id, triple_views, DictView, FourSectDict, Triple, TripleView,
};
use crate::header::{header_facts, header_text, lemma_issue_time_is_last, Header, HeaderView};
use crate::log_sequence::{front_coded, front_coded_section, pfc_section, LogSequence2};
use crate::term_set::{lemma_strictly_ascending_distinct, terms_size};
use vstd::prelude::*;
use vstd::utf8::encode_utf8;

verus! {

/// What is known of the source of the triples.
pub struct Source {
    /// The IRI that stands for the dataset, without angle brackets; for a
    /// file, `file://` and its absolute path.
    pub base_iri: String,
    /// The number of bytes of the source.
    pub original_size: u64,
    /// The time at which the container is made, in ISO 8601 with an offset.
    pub issued: String,
}

/// What is known of the source, in numbers and sequences of characters.
pub struct SourceView {
    /// The IRI that stands for the dataset.
    pub base_iri: Seq<char>,
    /// The number of bytes of the source.
    pub original_size: nat,
    /// The time at which the container is made.
    pub issued: Seq<char>,
}

impl View for Source {
    type V = SourceView;

    open spec fn view(&self) -> SourceView {
        SourceView {
            base_iri: self.base_iri@,
            original_size: self.original_size as nat,
            issued: self.issued@,
        }
    }
}

/// Why a list of triples was not encoded.
#[derive(Clone, Copy, Debug, PartialEq, Eq, Structural)]
pub enum BuildError {
    /// A role has more terms than 32-bit identifiers can number.
    TooManyTerms,
    /// A dictionary section is longer than 32-bit offsets can address.
    SectionTooLarge,
    /// The identifiers of the triples break a rule of the triples encoder.
    EncoderInvariantViolation(EncoderInvariantViolation),
}

/// The number of bytes that the terms of all four sections take.
pub open spec fn dictionary_size(d: DictView) -> nat {
    terms_size(d.shared) + terms_size(d.subjects) + terms_size(d.predicates) + terms_size(
        d.objects,
    )
}

/// The dictionary as stored: its control block and the four sections, in the
/// order shared, subjects, predicates, objects.
pub open spec fn dictionary_part(d: DictView) -> Seq<u8> {
    control_block(dictionary_info(dictionary_size(d))) + pfc_section(
        front_coded_section(d.shared),
    ) + pfc_section(front_coded_section(d.subjects)) + pfc_section(
        front_coded_section(d.predicates),
    ) + pfc_section(front_coded_section(d.objects))
}

/// The triples as stored: their control block, the two bit sequences and
/// the two arrays.
pub open spec fn triples_part(b: BitmapTriplesView) -> Seq<u8> {
    control_block(triples_info()) + bitmap_triples_sections(b)
}

/// What the header says of a container with dictionary `d` and triples `b`.
pub open spec fn header_of(d: DictView, b: BitmapTriplesView, source: SourceView) -> HeaderView {
    HeaderView {
        base_iri: source.base_iri,
        num_triples: b.z.len(),
        num_predicates: d.predicates.len(),
        distinct_subjects: d.shared.len() + d.subjects.len(),
        distinct_objects: d.shared.len() + d.objects.len(),
        num_shared: d.shared.len(),
        size_strings: dictionary_size(d),
        original_size: source.original_size,
        hdt_size: (dictionary_part(d) + triples_part(b)).len(),
        issued: source.issued,
    }
}

/// The container of a dictionary and its triples: the global control block,
/// the control block of the header and the header, the dictionary, the
/// triples.
pub open spec fn container(d: DictView, b: BitmapTriplesView, source: SourceView) -> Seq<u8> {
    let header = encode_utf8(header_text(header_of(d, b, source)));
    control_block(global_info()) + control_block(header_info(header.len())) + header
        + dictionary_part(d) + triples_part(b)
}

/// The sizes that a container reports are those of its dictionary: the
/// header gives the shared terms and those that are subjects only as the
/// distinct subjects, the shared terms and those that are objects only as
/// the distinct objects, and every stored section gives the number of its
/// terms.
pub proof fn lemma_reported_sizes(d: DictView, b: BitmapTriplesView, source: SourceView)
    ensures
        header_of(d, b, source).distinct_subjects == d.shared.len() + d.subjects.len(),
        header_of(d, b, source).distinct_objects == d.shared.len() + d.objects.len(),
        header_of(d, b, source).num_predicates == d.predicates.len(),
        header_of(d, b, source).num_shared == d.shared.len(),
        front_coded_section(d.shared).num_terms == d.shared.len(),
        front_coded_section(d.subjects).num_terms == d.subjects.len(),
        front_coded_section(d.predicates).num_terms == d.predicates.len(),
        front_coded_section(d.objects).num_terms == d.objects.len(),
{
}

/// Time enters a container through the last statement of its header only:
/// containers of the same dictionary and triples, from sources that differ
/// in the time of making alone, have the same dictionary part and triples
/// part, and headers that agree up to that statement.
pub proof fn lemma_issue_time_is_local(
    d: DictView,
    b: BitmapTriplesView,
    first: SourceView,
    second: SourceView,
)
    requires
        first.base_iri == second.base_iri,
        first.original_size == second.original_size,
    ensures
        header_facts(header_of(d, b, first)) == header_facts(header_of(d, b, second)),
        first.issued == second.issued ==> container(d, b, first) == container(d, b, second),
{
    lemma_issue_time_is_last(header_of(d, b, first), header_of(d, b, second));
    if first.issued == second.issued {
        assert(first == second);
    }
}

/// The triples of a list as identifiers, in subject-predicate-object order.
pub open spec fn sorted_ids(triples: Seq<TripleView>) -> Seq<TripleId> {
    encoded_triples(dictionary_of(triples), triples).sort_by(triple_order())
}

/// The HDT file of a list of triples.
pub open spec fn hdt_file(triples: Seq<TripleView>, source: SourceView) -> Seq<u8> {
    container(dictionary_of(triples), bitmap_triples(sorted_ids(triples)), source)
}

/// Every section of the dictionary is short enough for 32-bit offsets.
pub open spec fn fits_offsets(d: DictView) -> bool {
    &&& front_coded(d.shared).len() <= u32::MAX
    &&& front_coded(d.subjects).len() <= u32::MAX
    &&& front_coded(d.predicates).len() <= u32::MAX
    &&& front_coded(d.objects).len() <= u32::MAX
}

/// Every subject identifier from 1 to the number of subjects is the subject
/// of one of the encoded triples.
pub proof fn lemma_subject_ids_dense(d: DictView, triples: Seq<TripleView>, u: int)
    requires
        dictionary_for(d, triples),
        1 <= u <= d.shared.len() + d.subjects.len(),
    ensures
        exists|j: int| 0 <= j < triples.len() && subject_id(d, (#[trigger] triples[j]).subject) == u,
{
    if u <= d.shared.len() {
        let term = d.shared[u - 1];
        assert(d.shared.contains(term));
        assert(is_subject(triples, term));
        let j = choose|j: int| 0 <= j < triples.len() && (#[trigger] triples[j]).subject == term;
        lemma_strictly_ascending_distinct(d.shared, u - 1, place_of(d.shared, term));
        assert(subject_id(d, triples[j].subject) == u);
    } else {
        let term = d.subjects[u - 1 - d.shared.len()];
        assert(d.subjects.contains(term));
        assert(is_subject(triples, term));
        assert(!d.shared.contains(term));
        let j = choose|j: int| 0 <= j < triples.len() && (#[trigger] triples[j]).subject == term;
        lemma_strictly_ascending_distinct(
            d.subjects,
            u - 1 - d.shared.len(),
            place_of(d.subjects, term),
        );
        assert(subject_id(d, triples[j].subject) == u);
    }
}

/// The triples that a dictionary encodes can always be stored: sorted, the
/// identifiers of a list of triples under the dictionary of that list break
/// no rule of the triples encoder.
#[verifier::rlimit(30)]
pub proof fn lemma_sorted_ids_encodable(d: DictView, triples: Seq<TripleView>)
    requires
        dictionary_for(d, triples),
        fits_ids(d),
    ensures
        encodable(encoded_triples(d, triples).sort_by(triple_order())),
{
    let ids = encoded_triples(d, triples);
    let sorted = ids.sort_by(triple_order());
    lemma_triple_order_total();
    ids.lemma_sort_by_ensures(triple_order());
    ids.to_multiset_ensures();
    sorted.to_multiset_ensures();
    assert forall|k: int| 0 <= k < sorted.len() implies (#[trigger] violation_at(sorted, k))
        is None by {
        let cur = sorted[k];
        assert(sorted.contains(cur));
        assert(ids.to_multiset().count(cur) > 0);
        assert(ids.contains(cur));
        let j = choose|j: int| 0 <= j < ids.len() && ids[j] == cur;
        lemma_encoded_ids_in_range(d, triples, j);
        assert(cur == encoded_triple(d, triples[j]));
        assert(cur.0 >= 1 && cur.1 >= 1 && cur.2 >= 1);
        assert(cur.0 <= d.shared.len() + d.subjects.len());
        let before: int = if k == 0 {
            0
        } else {
            sorted[k - 1].0 as int
        };
        if k > 0 {
            assert(triple_order()(sorted[k - 1], sorted[k]));
            assert(triple_leq(sorted[k - 1], cur));
        }
        if cur.0 != before && cur.0 != before + 1 {
            let u = before + 1;
            assert(1 <= u < cur.0);
            lemma_subject_ids_dense(d, triples, u);
            let j2 = choose|j2: int|
                0 <= j2 < triples.len() && subject_id(d, (#[trigger] triples[j2]).subject) == u;
            let used = ids[j2];
            assert(used == encoded_triple(d, triples[j2]));
            assert(used.0 == u);
            assert(ids.contains(used));
            assert(sorted.to_multiset().count(used) > 0);
            assert(sorted.contains(used));
            let m = choose|m: int| 0 <= m < sorted.len() && sorted[m] == used;
            if m < k {
                if m < k - 1 {
                    assert(triple_order()(sorted[m], sorted[k - 1]));
                }
                assert(triple_leq(sorted[m], sorted[k - 1]));
            } else if m > k {
                assert(triple_order()(sorted[k], sorted[m]));
            }
            assert(false);
        }
    }
}

/// What is stored stands for the triples that were given, and for no
/// others: read back from the bitmap triples and named by the dictionary,
/// the stored triples are those of the list, each once.
pub proof fn lemma_stored_triples_are_the_input(d: DictView, triples: Seq<TripleView>)
    requires
        dictionary_for(d, triples),
        fits_ids(d),
    ensures
        ({
            let stored = decoded(
                bitmap_triples(encoded_triples(d, triples).sort_by(triple_order())),
            );
            &&& forall|j: int|
                0 <= j < triples.len() ==> exists|k: int|
                    0 <= k < stored.len() && decoded_terms(d, stored[k]) == #[trigger] triples[j]
            &&& forall|k: int|
                0 <= k < stored.len() ==> exists|j: int|
                    0 <= j < triples.len() && #[trigger] stored[k] == encoded_triple(
                        d,
                        triples[j],
                    ) && decoded_terms(d, stored[k]) == triples[j]
            &&& forall|a: int, b: int|
                0 <= a < b < stored.len() ==> #[trigger] stored[a] != #[trigger] stored[b]
        }),
{
    let ids = encoded_triples(d, triples);
    let sorted = ids.sort_by(triple_order());
    let stored = decoded(bitmap_triples(sorted));
    lemma_sorted_ids_encodable(d, triples);
    lemma_bitmap_triples_round_trip(sorted);
    lemma_triple_order_total();
    ids.lemma_sort_by_ensures(triple_order());
    ids.to_multiset_ensures();
    sorted.to_multiset_ensures();
    lemma_without_repeats(sorted, sorted.len());
    assert(sorted.take(sorted.len() as int) =~= sorted);
    assert(stored == without_repeats(sorted));
    assert forall|j: int| 0 <= j < triples.len() implies exists|k: int|
        0 <= k < stored.len() && decoded_terms(d, stored[k]) == #[trigger] triples[j] by {
        let id = ids[j];
        assert(ids.contains(id));
        assert(sorted.to_multiset().count(id) > 0);
        assert(sorted.contains(id));
        assert(stored.contains(id));
        let k = choose|k: int| 0 <= k < stored.len() && stored[k] == id;
        lemma_encoded_triple_round_trip(d, triples, j);
        assert(decoded_terms(d, stored[k]) == triples[j]);
    }
    assert forall|k: int| 0 <= k < stored.len() implies exists|j: int|
        0 <= j < triples.len() && #[trigger] stored[k] == encoded_triple(d, triples[j])
            && decoded_terms(d, stored[k]) == triples[j] by {
        let id = stored[k];
        assert(stored.contains(id));
        assert(sorted.contains(id));
        assert(ids.to_multiset().count(id) > 0);
        assert(ids.contains(id));
        let j = choose|j: int| 0 <= j < ids.len() && ids[j] == id;
        lemma_encoded_triple_round_trip(d, triples, j);
        assert(stored[k] == encoded_triple(d, triples[j]));
        assert(decoded_terms(d, stored[k]) == triples[j]);
    }
}

/// The dictionary of `triples` and their bitmap triples.
pub struct Encoding {
    /// The dictionary.
    pub dictionary: FourSectDict,
    /// The triples.
    pub triples: BitmapTriples,
}

/// Builds the dictionary of `triples` and encodes them under it, in
/// subject-predicate-object order and each triple once. This fails only
/// where a role has more terms than 32-bit identifiers can number.
pub fn encode_triples(triples: &Vec<Triple>) -> (result: Result<Encoding, BuildError>)
    ensures
        match result {
            Ok(encoding) => {
                &&& fits_ids(dictionary_of(triple_views(triples@)))
                &&& encoding.dictionary@ == dictionary_of(triple_views(triples@))
                &&& dictionary_for(encoding.dictionary@, triple_views(triples@))
                &&& encodable(sorted_ids(triple_views(triples@)))
                &&& encoding.triples@ == bitmap_triples(sorted_ids(triple_views(triples@)))
            },
            Err(e) => e == BuildError::TooManyTerms && !fits_ids(
                dictionary_of(triple_views(triples@)),
            ),
        },
{
    let dictionary = match FourSectDict::build(triples) {
        Ok(dictionary) => dictionary,
        Err(_) => {
            return Err(BuildError::TooManyTerms);
        },
    };
    let ids = dictionary.encode(triples);
    proof {
        lemma_sorted_ids_encodable(dictionary@, triple_views(triples@));
    }
    match BitmapTriples::new(ids) {
        Ok(encoded) => Ok(Encoding { dictionary, triples: encoded }),
        Err(e) => Err(BuildError::EncoderInvariantViolation(e)),
    }
}

/// Appends the dictionary as stored to `dest`: its control block and the
/// four sections. Where a section is longer than 32-bit offsets can
/// address, nothing is appended.
#[verifier::rlimit(30)]
pub fn save_dictionary(dictionary: &FourSectDict, dest: &mut Vec<u8>) -> (result: Result<
    (),
    BuildError,
>)
    ensures
        match result {
            Ok(_) => fits_offsets(dictionary@) && final(dest)@ == old(dest)@ + dictionary_part(
                dictionary@,
            ),
            Err(e) => e == BuildError::SectionTooLarge && !fits_offsets(dictionary@) && final(dest)@
                == old(dest)@,
        },
{
    let shared = match LogSequence2::compress(dictionary.shared()) {
        Ok(section) => section,
        Err(_) => {
            return Err(BuildError::SectionTooLarge);
        },
    };
    let subjects = match LogSequence2::compress(dictionary.subjects()) {
        Ok(section) => section,
        Err(_) => {
            return Err(BuildError::SectionTooLarge);
        },
    };
    let predicates = match LogSequence2::compress(dictionary.predicates()) {
        Ok(section) => section,
        Err(_) => {
            return Err(BuildError::SectionTooLarge);
        },
    };
    let objects = match LogSequence2::compress(dictionary.objects()) {
        Ok(section) => section,
        Err(_) => {
            return Err(BuildError::SectionTooLarge);
        },
    };
    let size_strings: u128 = dictionary.size_in_bytes();
    ControlInfo::dictionary(size_strings).save(dest);
    shared.save(dest);
    subjects.save(dest);
    predicates.save(dest);
    objects.save(dest);
    assert(dest@ =~= old(dest)@ + dictionary_part(dictionary@));
    Ok(())
}

/// Appends the triples as stored to `dest`: their control block, the two
/// bit sequences and the two arrays.
pub fn save_triples(triples: &BitmapTriples, dest: &mut Vec<u8>)
    ensures
        final(dest)@ == old(dest)@ + triples_part(triples@),
{
    ControlInfo::triples().save(dest);
    triples.save(dest);
    assert(dest@ =~= old(dest)@ + triples_part(triples@));
}

/// The container of a dictionary and its triples. It fails only where a
/// dictionary section is longer than 32-bit offsets can address.
#[verifier::rlimit(50)]
pub fn save_container(encoding: &Encoding, source: &Source) -> (result: Result<Vec<u8>, BuildError>)
    ensures
        match result {
            Ok(bytes) => fits_offsets(encoding.dictionary@) && bytes@ == container(
                encoding.dictionary@,
                encoding.triples@,
                source@,
            ),
            Err(e) => e == BuildError::SectionTooLarge && !fits_offsets(encoding.dictionary@),
        },
{
    let dictionary = &encoding.dictionary;
    let mut body: Vec<u8> = Vec::new();
    match save_dictionary(dictionary, &mut body) {
        Ok(_) => {},
        Err(e) => {
            return Err(e);
        },
    }
    save_triples(&encoding.triples, &mut body);
    assert(body@ =~= dictionary_part(dictionary@) + triples_part(encoding.triples@));
    let header = Header {
        base_iri: source.base_iri.clone(),
        num_triples: encoding.triples.num_triples(),
        num_predicates: dictionary.num_predicates(),
        distinct_subjects: dictionary.num_subjects(),
        distinct_objects: dictionary.num_objects(),
        num_shared: dictionary.num_shared(),
        size_strings: dictionary.size_in_bytes(),
        original_size: source.original_size,
        hdt_size: body.len(),
        issued: source.issued.clone(),
    };
    assert(header@ == header_of(dictionary@, encoding.triples@, source@));
    let text = header.to_ntriples();
    let header_bytes = text.as_str().as_bytes();
    let mut file: Vec<u8> = Vec::new();
    ControlInfo::global().save(&mut file);
    ControlInfo::header(header_bytes.len()).save(&mut file);
    append_bytes(header_bytes, &mut file);
    append_bytes(body.as_slice(), &mut file);
    assert(file@ =~= container(dictionary@, encoding.triples@, source@));
    Ok(file)
}

/// Builds the HDT file of `triples`. The file is that of the dictionary of
/// the triples and of their identifiers in subject-predicate-object order,
/// each triple once. It is built unless a role has more terms than 32-bit
/// identifiers can number, or a dictionary section is longer than 32-bit
/// offsets can address.
pub fn build_hdt(triples: &Vec<Triple>, source: &Source) -> (result: Result<Vec<u8>, BuildError>)
    ensures
        match result {
            Ok(bytes) => {
                &&& fits_ids(dictionary_of(triple_views(triples@)))
                &&& fits_offsets(dictionary_of(triple_views(triples@)))
                &&& bytes@ == hdt_file(triple_views(triples@), source@)
            },
            Err(BuildError::TooManyTerms) => !fits_ids(dictionary_of(triple_views(triples@))),
            Err(BuildError::SectionTooLarge) => fits_ids(dictionary_of(triple_views(triples@)))
                && !fits_offsets(dictionary_of(triple_views(triples@))),
            Err(BuildError::EncoderInvariantViolation(_)) => false,
        },
{
    let encoding = match encode_triples(triples) {
        Ok(encoding) => encoding,
        Err(e) => {
            return Err(e);
        },
    };
    save_container(&encoding, source)
}

} // verus!
