//! What a reader finds in a container: the parts of an HDT file as they are
//! read back from its bytes, and the proof that they are the parts that
//! were stored.

use crate::bitmap_triples::{
    bitmap_triples, bitmap_triples_sections, decoded, lemma_bitmap_triples_read_back,
    read_bitmap_triples, triple_order, BitmapTriplesView,
};
use crate::builder::{
    container, dictionary_part, dictionary_size, header_of, lemma_stored_triples_are_the_input,
    triples_part, SourceView,
};
use crate::common::Framed;
use crate::control_info::{
    closes_cleanly, control_block, dictionary_info, global_info, header_info,
    lemma_control_block_reads_back, properties_text, read_control_block, triples_info,
};
use crate::dictionary::{
    decoded_terms, dictionary_for, encoded_triple, encoded_triples, fits_ids, is_object,
    is_predicate, is_subject, DictView, TripleView,
};
use crate::header::header_text;
use crate::log_sequence::{
    front_coded_section, front_decoded, lemma_front_coding_round_trip,
    lemma_pfc_section_reads_back, pfc_section, read_pfc_section, terms_without_nul,
    LogSequence2View,
};
use crate::text::{decimal, decimal_value, has_no_nul, lemma_decimal_round_trip};
use vstd::prelude::*;
use vstd::utf8::{encode_utf8, is_ascii_chars, is_ascii_chars_encode_utf8};

verus! {

/// The control blocks that a container is written with hold no zero
/// character.
pub proof fn lemma_blocks_close_cleanly(length: nat, size_strings: nat)
    ensures
        closes_cleanly(global_info()),
        closes_cleanly(header_info(length)),
        closes_cleanly(dictionary_info(size_strings)),
        closes_cleanly(triples_info()),
{
    reveal_strlit("<http://purl.org/HDT/hdt#HDTv1>");
    reveal_strlit("ntriples");
    reveal_strlit("length");
    reveal_strlit("<http://purl.org/HDT/hdt#dictionaryFour>");
    reveal_strlit("mappings");
    reveal_strlit("1");
    reveal_strlit("sizeStrings");
    reveal_strlit("<http://purl.org/HDT/hdt#triplesBitmap>");
    reveal_strlit("order");
    lemma_decimal_round_trip(length);
    lemma_decimal_round_trip(size_strings);
}

/// The bytes of `length=`.
pub open spec fn length_key() -> Seq<u8> {
    seq![0x6cu8, 0x65u8, 0x6eu8, 0x67u8, 0x74u8, 0x68u8, 0x3du8]
}

/// The length that the properties of a header block give: the decimal number
/// between `length=` and the `;` that ends the property.
pub open spec fn header_length(properties: Seq<u8>) -> Option<nat> {
    if properties.len() >= 8 && properties.take(7) == length_key() {
        Some(decimal_value(properties.subrange(7, properties.len() - 1)))
    } else {
        None
    }
}

/// The properties of a header block give the length that it was made with.
pub proof fn lemma_header_length(length: nat)
    ensures
        header_length(properties_text(header_info(length).properties, 1)) == Some(length),
{
    reveal_strlit("length");
    let key = "length"@;
    assert(is_ascii_chars(key));
    is_ascii_chars_encode_utf8(key);
    let key_bytes = encode_utf8(key);
    lemma_decimal_round_trip(length);
    let digits = encode_utf8(decimal(length));
    let properties = header_info(length).properties;
    let text = properties_text(properties, 1);
    assert(properties_text(properties, 0) =~= Seq::<u8>::empty());
    assert(text =~= key_bytes + seq![0x3du8] + digits + seq![0x3bu8]);
    assert(text.take(7) =~= length_key());
    assert(text.subrange(7, text.len() - 1) =~= digits);
}

/// The four sections of a dictionary as they are stored.
pub struct StoredDictionary {
    /// The section of the terms that are both subject and object.
    pub shared: LogSequence2View,
    /// The section of the terms that are subject only.
    pub subjects: LogSequence2View,
    /// The section of the predicates.
    pub predicates: LogSequence2View,
    /// The section of the terms that are object only.
    pub objects: LogSequence2View,
}

/// Reads the four sections of a dictionary from the start of `bytes`, each
/// accepted by the reader of front-coded sections.
#[verifier::opaque]
pub open spec fn read_dictionary_sections(bytes: Seq<u8>) -> Option<Framed<StoredDictionary>> {
    match read_pfc_section(bytes) {
        Some(shared) => match read_pfc_section(bytes.skip(shared.len as int)) {
            Some(subjects) => match read_pfc_section(
                bytes.skip((shared.len + subjects.len) as int),
            ) {
                Some(predicates) => match read_pfc_section(
                    bytes.skip((shared.len + subjects.len + predicates.len) as int),
                ) {
                    Some(objects) => Some(
                        Framed {
                            content: StoredDictionary {
                                shared: shared.content,
                                subjects: subjects.content,
                                predicates: predicates.content,
                                objects: objects.content,
                            },
                            len: shared.len + subjects.len + predicates.len + objects.len,
                        },
                    ),
                    None => None,
                },
                None => None,
            },
            None => None,
        },
        None => None,
    }
}

/// The bytes of four stored sections, one after the other.
pub open spec fn dictionary_sections(stored: StoredDictionary) -> Seq<u8> {
    pfc_section(stored.shared) + pfc_section(stored.subjects) + pfc_section(stored.predicates)
        + pfc_section(stored.objects)
}

/// The stored sections of a dictionary validate and read back, whatever
/// follows them.
#[verifier::rlimit(30)]
pub proof fn lemma_dictionary_sections_read_back(stored: StoredDictionary, rest: Seq<u8>)
    ensures
        read_dictionary_sections(dictionary_sections(stored) + rest) == Some(
            Framed { content: stored, len: dictionary_sections(stored).len() },
        ),
{
    reveal(read_dictionary_sections);
    let first = pfc_section(stored.shared);
    let second = pfc_section(stored.subjects);
    let third = pfc_section(stored.predicates);
    let fourth = pfc_section(stored.objects);
    let bytes = dictionary_sections(stored) + rest;
    assert(bytes =~= first + (second + third + fourth + rest));
    lemma_pfc_section_reads_back(stored.shared, second + third + fourth + rest);
    assert(bytes.skip(first.len() as int) =~= second + (third + fourth + rest));
    lemma_pfc_section_reads_back(stored.subjects, third + fourth + rest);
    assert(bytes.skip((first.len() + second.len()) as int) =~= third + (fourth + rest));
    lemma_pfc_section_reads_back(stored.predicates, fourth + rest);
    assert(bytes.skip((first.len() + second.len() + third.len()) as int) =~= fourth + rest);
    lemma_pfc_section_reads_back(stored.objects, rest);
}

/// The dictionary and the triples of a container as they are stored.
pub struct StoredBody {
    /// The four sections of the dictionary.
    pub dictionary: StoredDictionary,
    /// The bitmap triples.
    pub triples: BitmapTriplesView,
}

/// Reads what follows the header of a container: the control block of the
/// dictionary and its four sections, the control block of the triples and
/// the bitmap triples, and nothing after them.
#[verifier::opaque]
pub open spec fn read_body(bytes: Seq<u8>) -> Option<StoredBody> {
    match read_control_block(bytes) {
        Some(dictionary_block) => match read_dictionary_sections(
            bytes.skip(dictionary_block.len as int),
        ) {
            Some(dictionary) => {
                let after = bytes.skip((dictionary_block.len + dictionary.len) as int);
                match read_control_block(after) {
                    Some(triples_block) => match read_bitmap_triples(
                        after.skip(triples_block.len as int),
                    ) {
                        Some(triples) => if dictionary_block.content.code == 3
                            && triples_block.content.code == 4 && after.len() == triples_block.len
                            + triples.len {
                            Some(
                                StoredBody {
                                    dictionary: dictionary.content,
                                    triples: triples.content,
                                },
                            )
                        } else {
                            None
                        },
                        None => None,
                    },
                    None => None,
                }
            },
            None => None,
        },
        None => None,
    }
}

/// The sections that a dictionary is stored in.
pub open spec fn stored_dictionary(d: DictView) -> StoredDictionary {
    StoredDictionary {
        shared: front_coded_section(d.shared),
        subjects: front_coded_section(d.subjects),
        predicates: front_coded_section(d.predicates),
        objects: front_coded_section(d.objects),
    }
}

/// What follows the header of a container validates and reads back as the
/// dictionary and the triples that were stored.
#[verifier::rlimit(50)]
pub proof fn lemma_body_reads_back(d: DictView, b: BitmapTriplesView)
    ensures
        read_body(dictionary_part(d) + triples_part(b)) == Some(
            StoredBody { dictionary: stored_dictionary(d), triples: b },
        ),
{
    reveal(read_body);
    let size = dictionary_size(d);
    lemma_blocks_close_cleanly(0, size);
    let block = control_block(dictionary_info(size));
    let sections = dictionary_sections(stored_dictionary(d));
    let bytes = dictionary_part(d) + triples_part(b);
    assert(bytes =~= block + (sections + triples_part(b)));
    lemma_control_block_reads_back(dictionary_info(size), sections + triples_part(b));
    assert(bytes.skip(block.len() as int) =~= sections + triples_part(b));
    lemma_dictionary_sections_read_back(stored_dictionary(d), triples_part(b));
    let after = bytes.skip((block.len() + sections.len()) as int);
    assert(after =~= triples_part(b));
    let triples_block = control_block(triples_info());
    let stored = bitmap_triples_sections(b);
    assert(after =~= triples_block + (stored + Seq::<u8>::empty()));
    lemma_control_block_reads_back(triples_info(), stored + Seq::<u8>::empty());
    assert(after.skip(triples_block.len() as int) =~= stored + Seq::<u8>::empty());
    lemma_bitmap_triples_read_back(b, Seq::empty());
}

/// A container as it is read: the header, and the dictionary and triples.
pub struct StoredContainer {
    /// The header, in UTF-8.
    pub header: Seq<u8>,
    /// The four sections of the dictionary.
    pub dictionary: StoredDictionary,
    /// The bitmap triples.
    pub triples: BitmapTriplesView,
}

/// Reads a container: the global control block, the control block of the
/// header and as many bytes of header as it announces, and then the
/// dictionary and the triples. Every control block must be of its type, and
/// every checksum must hold.
#[verifier::opaque]
pub open spec fn read_container(bytes: Seq<u8>) -> Option<StoredContainer> {
    match read_control_block(bytes) {
        Some(global) => {
            let after_global = bytes.skip(global.len as int);
            match read_control_block(after_global) {
                Some(header_block) => match header_length(header_block.content.properties) {
                    Some(length) => {
                        let header_end = header_block.len + length;
                        match read_body(after_global.skip(header_end as int)) {
                            Some(body) => if global.content.code == 1 && header_block.content.code
                                == 2 && after_global.len() >= header_end {
                                Some(
                                    StoredContainer {
                                        header: after_global.subrange(
                                            header_block.len as int,
                                            header_end as int,
                                        ),
                                        dictionary: body.dictionary,
                                        triples: body.triples,
                                    },
                                )
                            } else {
                                None
                            },
                            None => None,
                        }
                    },
                    None => None,
                },
                None => None,
            }
        },
        None => None,
    }
}

/// A container validates and reads back: every control block and every
/// section is accepted, and what is read is the header, the dictionary and
/// the triples that the container was made of.
#[verifier::rlimit(50)]
pub proof fn lemma_container_reads_back(d: DictView, b: BitmapTriplesView, source: SourceView)
    ensures
        read_container(container(d, b, source)) == Some(
            StoredContainer {
                header: encode_utf8(header_text(header_of(d, b, source))),
                dictionary: stored_dictionary(d),
                triples: b,
            },
        ),
{
    reveal(read_container);
    let header = encode_utf8(header_text(header_of(d, b, source)));
    let body = dictionary_part(d) + triples_part(b);
    let global = control_block(global_info());
    let header_block = control_block(header_info(header.len()));
    let bytes = container(d, b, source);
    lemma_blocks_close_cleanly(header.len(), 0);
    assert(bytes =~= global + (header_block + header + body));
    lemma_control_block_reads_back(global_info(), header_block + header + body);
    let after_global = bytes.skip(global.len() as int);
    assert(after_global =~= header_block + (header + body));
    lemma_control_block_reads_back(header_info(header.len()), header + body);
    lemma_header_length(header.len());
    let header_end = header_block.len() + header.len();
    assert(after_global.skip(header_end as int) =~= body);
    assert(after_global.subrange(header_block.len() as int, header_end as int) =~= header);
    lemma_body_reads_back(d, b);
}

/// The sizes that a reader finds in a container are those of its
/// dictionary: every section announces the number of its terms.
pub proof fn lemma_container_reports_sizes(d: DictView, b: BitmapTriplesView, source: SourceView)
    ensures
        ({
            let read = read_container(container(d, b, source));
            &&& read is Some
            &&& read->0.dictionary.shared.num_terms == d.shared.len()
            &&& read->0.dictionary.subjects.num_terms == d.subjects.len()
            &&& read->0.dictionary.predicates.num_terms == d.predicates.len()
            &&& read->0.dictionary.objects.num_terms == d.objects.len()
        }),
{
    lemma_container_reads_back(d, b, source);
}

/// The terms of the four sections of a stored dictionary, decoded.
pub open spec fn decoded_dictionary(stored: StoredDictionary) -> DictView {
    DictView {
        shared: front_decoded(
            stored.shared.compressed_terms,
            0,
            stored.shared.num_terms,
            Seq::empty(),
        ),
        subjects: front_decoded(
            stored.subjects.compressed_terms,
            0,
            stored.subjects.num_terms,
            Seq::empty(),
        ),
        predicates: front_decoded(
            stored.predicates.compressed_terms,
            0,
            stored.predicates.num_terms,
            Seq::empty(),
        ),
        objects: front_decoded(
            stored.objects.compressed_terms,
            0,
            stored.objects.num_terms,
            Seq::empty(),
        ),
    }
}

/// No term of the triples holds the zero character.
pub open spec fn triples_without_nul(triples: Seq<TripleView>) -> bool {
    forall|i: int|
        0 <= i < triples.len() ==> has_no_nul((#[trigger] triples[i]).subject)
            && has_no_nul(triples[i].predicate) && has_no_nul(
            triples[i].object,
        )
}

/// The triples that a reader finds in a container: those that its bitmap
/// triples stand for, each named by the decoded dictionary.
pub open spec fn triples_read(stored: StoredContainer) -> Seq<TripleView> {
    let d = decoded_dictionary(stored.dictionary);
    let ids = decoded(stored.triples);
    Seq::new(ids.len(), |k: int| decoded_terms(d, ids[k]))
}

/// A container gives back the graph it was made of. Read from its bytes,
/// with every checksum holding, the container of a list of triples without
/// the zero character yields each triple of the list and no other, and no
/// triple twice.
#[verifier::rlimit(30)]
pub proof fn lemma_container_yields_the_triples(
    d: DictView,
    triples: Seq<TripleView>,
    source: SourceView,
)
    requires
        dictionary_for(d, triples),
        fits_ids(d),
        triples_without_nul(triples),
    ensures
        ({
            let ids = encoded_triples(d, triples).sort_by(triple_order());
            let read = read_container(container(d, bitmap_triples(ids), source));
            &&& read is Some
            &&& decoded_dictionary(read->0.dictionary) == d
            &&& forall|j: int|
                0 <= j < triples.len() ==> triples_read(read->0).contains(#[trigger] triples[j])
            &&& forall|k: int|
                0 <= k < triples_read(read->0).len() ==> triples.contains(
                    #[trigger] triples_read(read->0)[k],
                )
            &&& forall|a: int, b: int|
                0 <= a < b < triples_read(read->0).len() ==> triples_read(read->0)[a]
                    != triples_read(read->0)[b]
        }),
{
    let ids = encoded_triples(d, triples).sort_by(triple_order());
    let b = bitmap_triples(ids);
    lemma_container_reads_back(d, b, source);
    let read = read_container(container(d, b, source))->0;
    lemma_dictionary_without_nul(d, triples);
    lemma_front_coding_round_trip(d.shared);
    lemma_front_coding_round_trip(d.subjects);
    lemma_front_coding_round_trip(d.predicates);
    lemma_front_coding_round_trip(d.objects);
    assert(decoded_dictionary(read.dictionary) == d);
    lemma_stored_triples_are_the_input(d, triples);
    let stored = decoded(b);
    let found = triples_read(read);
    assert forall|j: int| 0 <= j < triples.len() implies found.contains(#[trigger] triples[j]) by {
        let k = choose|k: int| 0 <= k < stored.len() && decoded_terms(d, stored[k]) == triples[j];
        assert(found[k] == triples[j]);
    }
    assert forall|k: int| 0 <= k < found.len() implies triples.contains(#[trigger] found[k]) by {
        let j = choose|j: int|
            0 <= j < triples.len() && stored[k] == encoded_triple(d, triples[j]) && decoded_terms(
                d,
                stored[k],
            ) == triples[j];
        assert(triples[j] == found[k]);
    }
    assert forall|a: int, b2: int| 0 <= a < b2 < found.len() implies found[a] != found[b2] by {
        let ja = choose|j: int|
            0 <= j < triples.len() && stored[a] == encoded_triple(d, triples[j]) && decoded_terms(
                d,
                stored[a],
            ) == triples[j];
        let jb = choose|j: int|
            0 <= j < triples.len() && stored[b2] == encoded_triple(d, triples[j]) && decoded_terms(
                d,
                stored[b2],
            ) == triples[j];
        assert(stored[a] != stored[b2]);
        assert(found[a] == triples[ja]);
        assert(found[b2] == triples[jb]);
    }
}

/// The terms of the dictionary of triples without the zero character are
/// without it.
pub proof fn lemma_dictionary_without_nul(d: DictView, triples: Seq<TripleView>)
    requires
        dictionary_for(d, triples),
        triples_without_nul(triples),
    ensures
        terms_without_nul(d.shared),
        terms_without_nul(d.subjects),
        terms_without_nul(d.predicates),
        terms_without_nul(d.objects),
{
    assert forall|i: int| 0 <= i < d.shared.len() implies has_no_nul(
        #[trigger] d.shared[i],
    ) by {
        let t = d.shared[i];
        assert(d.shared.contains(t));
        assert(is_subject(triples, t));
        let j = choose|j: int| 0 <= j < triples.len() && (#[trigger] triples[j]).subject == t;
    }
    assert forall|i: int| 0 <= i < d.subjects.len() implies has_no_nul(
        #[trigger] d.subjects[i],
    ) by {
        let t = d.subjects[i];
        assert(d.subjects.contains(t));
        assert(is_subject(triples, t));
        let j = choose|j: int| 0 <= j < triples.len() && (#[trigger] triples[j]).subject == t;
    }
    assert forall|i: int| 0 <= i < d.predicates.len() implies has_no_nul(
        #[trigger] d.predicates[i],
    ) by {
        let t = d.predicates[i];
        assert(d.predicates.contains(t));
        assert(is_predicate(triples, t));
        let j = choose|j: int| 0 <= j < triples.len() && (#[trigger] triples[j]).predicate == t;
    }
    assert forall|i: int| 0 <= i < d.objects.len() implies has_no_nul(
        #[trigger] d.objects[i],
    ) by {
        let t = d.objects[i];
        assert(d.objects.contains(t));
        assert(is_object(triples, t));
        let j = choose|j: int| 0 <= j < triples.len() && (#[trigger] triples[j]).object == t;
    }
}

} // verus!
