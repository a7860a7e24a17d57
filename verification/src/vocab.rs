//! The IRIs of the vocabularies that an HDT header is written in.

use vstd::prelude::*;

verus! {

/// The type of an HDT container.
pub const HDT_CONTAINER: &'static str = "http://purl.org/HDT/hdt#HDTv1";

/// The type of a dataset in VoID.
pub const VOID_DATASET: &'static str = "http://rdfs.org/ns/void#Dataset";

/// The number of triples of a dataset.
pub const VOID_TRIPLES: &'static str = "http://rdfs.org/ns/void#triples";

/// The number of distinct predicates of a dataset.
pub const VOID_PROPERTIES: &'static str = "http://rdfs.org/ns/void#properties";

/// The number of distinct subjects of a dataset.
pub const VOID_DISTINCT_SUBJECTS: &'static str = "http://rdfs.org/ns/void#distinctSubjects";

/// The number of distinct objects of a dataset.
pub const VOID_DISTINCT_OBJECTS: &'static str = "http://rdfs.org/ns/void#distinctObjects";

/// Links a container to its statistics.
pub const HDT_STATISTICAL_INFORMATION: &'static str = "http://purl.org/HDT/hdt#statisticalInformation";

/// Links a container to what is known of its publication.
pub const HDT_PUBLICATION_INFORMATION: &'static str = "http://purl.org/HDT/hdt#publicationInformation";

/// Links a container to the description of its format.
pub const HDT_FORMAT_INFORMATION: &'static str = "http://purl.org/HDT/hdt#formatInformation";

/// Links a format to the description of its dictionary.
pub const HDT_DICTIONARY: &'static str = "http://purl.org/HDT/hdt#dictionary";

/// Links a format to the description of its triples.
pub const HDT_TRIPLES: &'static str = "http://purl.org/HDT/hdt#triples";

/// The number of terms that are both subject and object.
pub const HDT_DICT_SHARED_SO: &'static str = "http://purl.org/HDT/hdt#dictionarynumSharedSubjectObject";

/// The way in which identifiers are mapped to sections.
pub const HDT_DICT_MAPPING: &'static str = "http://purl.org/HDT/hdt#dictionarymapping";

/// The number of bytes of the terms of the dictionary.
pub const HDT_DICT_SIZE_STRINGS: &'static str = "http://purl.org/HDT/hdt#dictionarysizeStrings";

/// The number of terms in a block of a dictionary section.
pub const HDT_DICT_BLOCK_SIZE: &'static str = "http://purl.org/HDT/hdt#dictionaryblockSize";

/// The format of a part of a container.
pub const DC_TERMS_FORMAT: &'static str = "http://purl.org/dc/terms/format";

/// The bitmap triples format.
pub const HDT_TYPE_BITMAP: &'static str = "http://purl.org/HDT/hdt#triplesBitmap";

/// The number of triples of the triples part.
pub const HDT_NUM_TRIPLES: &'static str = "http://purl.org/HDT/hdt#triplesnumTriples";

/// The order of the components in the triples part.
pub const HDT_TRIPLES_ORDER: &'static str = "http://purl.org/HDT/hdt#triplesOrder";

/// The number of bytes of the source that a container was made from.
pub const HDT_ORIGINAL_SIZE: &'static str = "http://purl.org/HDT/hdt#originalSize";

/// The number of bytes of a container's dictionary and triples.
pub const HDT_SIZE: &'static str = "http://purl.org/HDT/hdt#hdtSize";

/// The time at which a container was made.
pub const DC_TERMS_ISSUED: &'static str = "http://purl.org/dc/terms/issued";

/// The type relation of RDF.
pub const RDF_TYPE: &'static str = "http://www.w3.org/1999/02/22-rdf-syntax-ns#type";

/// The four-section dictionary format.
pub const HDT_DICTIONARY_TYPE_FOUR: &'static str = "http://purl.org/HDT/hdt#dictionaryFour";

} // verus!
