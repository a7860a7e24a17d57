//! What precedes encoding: the serializations that are accepted, parsed
//! terms and the form in which the dictionary stores them, and the
//! flattening of named graphs.

use crate::dictionary::{Triple, TripleView};
use crate::header::{iri_ref, statement};
use crate::text::{append_escaped, common_prefix_len, escaped, parting};
use vstd::prelude::*;

verus! {

/// An RDF term as a parser hands it over: the lexical form of a literal is
/// the value itself, without escapes.
pub enum Term {
    /// An IRI, without angle brackets.
    Iri(String),
    /// A blank node, by its label without the leading `_:`.
    BlankNode(String),
    /// A literal without language tag and datatype.
    SimpleLiteral(String),
    /// A literal with a language tag: the lexical form and the tag.
    LanguageLiteral(String, String),
    /// A literal with a datatype: the lexical form and the IRI of the
    /// datatype, without angle brackets.
    TypedLiteral(String, String),
}

/// An RDF term as sequences of characters.
pub enum TermView {
    /// An IRI.
    Iri(Seq<char>),
    /// A blank node, by its label.
    BlankNode(Seq<char>),
    /// A literal without language tag and datatype.
    SimpleLiteral(Seq<char>),
    /// A literal with a language tag.
    LanguageLiteral(Seq<char>, Seq<char>),
    /// A literal with a datatype.
    TypedLiteral(Seq<char>, Seq<char>),
}

impl View for Term {
    type V = TermView;

    open spec fn view(&self) -> TermView {
        match self {
            Term::Iri(iri) => TermView::Iri(iri@),
            Term::BlankNode(label) => TermView::BlankNode(label@),
            Term::SimpleLiteral(value) => TermView::SimpleLiteral(value@),
            Term::LanguageLiteral(value, language) => TermView::LanguageLiteral(value@, language@),
            Term::TypedLiteral(value, datatype) => TermView::TypedLiteral(value@, datatype@),
        }
    }
}

/// The form in which the dictionary stores a term: an IRI bare, a blank node
/// as `_:` and its label, a literal as N-Triples write it, between double
/// quotes and followed by `@` and the language tag or by `^^` and the
/// datatype between angle brackets where it has one.
pub open spec fn dictionary_form(term: TermView) -> Seq<char> {
    match term {
        TermView::Iri(iri) => iri,
        TermView::BlankNode(label) => seq!['_', ':'] + label,
        TermView::SimpleLiteral(value) => seq!['"'] + escaped(value) + seq!['"'],
        TermView::LanguageLiteral(value, language) => seq!['"'] + escaped(value) + seq!['"', '@']
            + language,
        TermView::TypedLiteral(value, datatype) => seq!['"'] + escaped(value) + seq![
            '"',
            '^',
            '^',
            '<',
        ] + datatype + seq!['>'],
    }
}

/// A literal with a language tag and the literal with the same lexical form
/// and no tag are two terms of a dictionary.
pub proof fn lemma_language_tag_distinguishes(value: Seq<char>, language: Seq<char>)
    ensures
        dictionary_form(TermView::LanguageLiteral(value, language)) != dictionary_form(
            TermView::SimpleLiteral(value),
        ),
{
    let tagged = dictionary_form(TermView::LanguageLiteral(value, language));
    let plain = dictionary_form(TermView::SimpleLiteral(value));
    assert(tagged.len() == escaped(value).len() + 3 + language.len());
    assert(plain.len() == escaped(value).len() + 2);
}

/// Literals with the same lexical form and different language tags are two
/// terms of a dictionary.
pub proof fn lemma_language_tags_distinguish(
    value: Seq<char>,
    first: Seq<char>,
    second: Seq<char>,
)
    requires
        first != second,
    ensures
        dictionary_form(TermView::LanguageLiteral(value, first)) != dictionary_form(
            TermView::LanguageLiteral(value, second),
        ),
{
    let a = dictionary_form(TermView::LanguageLiteral(value, first));
    let b = dictionary_form(TermView::LanguageLiteral(value, second));
    let at = escaped(value).len() + 3;
    assert(a.skip(at as int) =~= first);
    assert(b.skip(at as int) =~= second);
}

impl Term {
    /// The term in the form in which the dictionary stores it.
    pub fn to_dictionary_form(&self) -> (text: String)
        ensures
            text@ == dictionary_form(self@),
    {
        proof {
            reveal_strlit("_:");
            reveal_strlit("\"");
            reveal_strlit("\"@");
            reveal_strlit("\"^^<");
            reveal_strlit(">");
        }
        match self {
            Term::Iri(iri) => iri.clone(),
            Term::BlankNode(label) => {
                let mut text = String::from_str("_:");
                text.append(label.as_str());
                assert(text@ =~= dictionary_form(self@));
                text
            },
            Term::SimpleLiteral(value) => {
                let mut text = String::from_str("\"");
                append_escaped(value.as_str(), &mut text);
                text.append("\"");
                assert(text@ =~= dictionary_form(self@));
                text
            },
            Term::LanguageLiteral(value, language) => {
                let mut text = String::from_str("\"");
                append_escaped(value.as_str(), &mut text);
                text.append("\"@");
                text.append(language.as_str());
                assert(text@ =~= dictionary_form(self@));
                text
            },
            Term::TypedLiteral(value, datatype) => {
                let mut text = String::from_str("\"");
                append_escaped(value.as_str(), &mut text);
                text.append("\"^^<");
                text.append(datatype.as_str());
                text.append(">");
                assert(text@ =~= dictionary_form(self@));
                text
            },
        }
    }
}

/// A statement as a parser hands it over: a triple, and the name of the
/// graph it was found in where the serialization has named graphs.
pub struct Quad {
    /// The subject.
    pub subject: Term,
    /// The predicate.
    pub predicate: Term,
    /// The object.
    pub object: Term,
    /// The name of the graph, if the statement was in a named graph.
    pub graph: Option<Term>,
}

/// The triple of dictionary terms that a statement becomes: its graph name
/// is dropped.
pub open spec fn flattened(quad: Quad) -> TripleView {
    TripleView {
        subject: dictionary_form(quad.subject@),
        predicate: dictionary_form(quad.predicate@),
        object: dictionary_form(quad.object@),
    }
}

/// The statements of one input as triples.
pub struct Flattened {
    /// The triples, in the order of the statements.
    pub triples: Vec<Triple>,
    /// Whether a graph name was dropped: the reason for one warning.
    pub dropped_graph_names: bool,
}

/// Turns the statements of one input into triples of dictionary terms, in
/// the order of the input. Graph names are dropped, and the result says
/// whether there was any.
pub fn flatten(quads: &Vec<Quad>) -> (result: Flattened)
    ensures
        result.triples@.len() == quads@.len(),
        forall|i: int| 0 <= i < quads@.len() ==> (#[trigger] result.triples@[i])@ == flattened(quads@[i]),
        result.dropped_graph_names == exists|i: int|
            0 <= i < quads@.len() && (#[trigger] quads@[i]).graph is Some,
{
    let n = quads.len();
    let mut triples: Vec<Triple> = Vec::new();
    let mut dropped_graph_names = false;
    let mut i: usize = 0;
    while i < n
        invariant
            n == quads@.len(),
            i <= n,
            triples@.len() == i,
            forall|k: int| 0 <= k < i ==> (#[trigger] triples@[k])@ == flattened(quads@[k]),
            dropped_graph_names == exists|k: int|
                0 <= k < i && (#[trigger] quads@[k]).graph is Some,
        decreases n - i,
    {
        let quad = &quads[i];
        triples.push(
            Triple {
                subject: quad.subject.to_dictionary_form(),
                predicate: quad.predicate.to_dictionary_form(),
                object: quad.object.to_dictionary_form(),
            },
        );
        if quad.graph.is_some() {
            dropped_graph_names = true;
        }
        i += 1;
    }
    Flattened { triples, dropped_graph_names }
}

/// `text` begins with `prefix`.
pub open spec fn starts_with(text: Seq<char>, prefix: Seq<char>) -> bool {
    common_prefix_len(text, prefix) == prefix.len()
}

/// A dictionary term as N-Triples write it: a blank node and a literal as
/// they are stored, an IRI between angle brackets.
pub open spec fn written_term(term: Seq<char>) -> Seq<char> {
    if starts_with(term, seq!['_', ':']) || starts_with(term, seq!['"']) {
        term
    } else {
        iri_ref(term)
    }
}

/// A triple of dictionary terms as a line of N-Triples.
pub open spec fn ntriples_line(triple: TripleView) -> Seq<char> {
    statement(written_term(triple.subject), triple.predicate, written_term(triple.object))
}

fn append_written_term(term: &str, dest: &mut String)
    ensures
        final(dest)@ == old(dest)@ + written_term(term@),
{
    proof {
        reveal_strlit("_:");
        reveal_strlit("\"");
        reveal_strlit("<");
        reveal_strlit(">");
        assert("_:"@ =~= seq!['_', ':']);
        assert("\""@ =~= seq!['"']);
    }
    let blank = parting(term, "_:").shared == 2;
    let literal = parting(term, "\"").shared == 1;
    if blank || literal {
        dest.append(term);
    } else {
        dest.append("<");
        dest.append(term);
        dest.append(">");
        assert(dest@ =~= old(dest)@ + iri_ref(term@));
    }
}

/// Appends `triple` to `dest` as a line of N-Triples.
pub fn append_ntriples_line(triple: &Triple, dest: &mut String)
    ensures
        final(dest)@ == old(dest)@ + ntriples_line(triple@),
{
    proof {
        reveal_strlit(" <");
        reveal_strlit("> ");
        reveal_strlit(" .\n");
    }
    append_written_term(triple.subject.as_str(), dest);
    dest.append(" <");
    dest.append(triple.predicate.as_str());
    dest.append("> ");
    append_written_term(triple.object.as_str(), dest);
    dest.append(" .\n");
    assert(dest@ =~= old(dest)@ + ntriples_line(triple@));
}

/// A serialization of RDF that is accepted as input.
#[derive(Clone, Copy, Debug, PartialEq, Eq, Structural)]
pub enum RdfFormat {
    /// N-Triples, in files that end in `.nt`.
    NTriples,
    /// Turtle, in files that end in `.ttl`.
    Turtle,
    /// N-Quads, in files that end in `.nq`.
    NQuads,
    /// TriG, in files that end in `.trig`.
    TriG,
    /// RDF/XML, in files that end in `.rdf`.
    RdfXml,
}

/// `text` ends with `suffix`.
pub open spec fn ends_with(text: Seq<char>, suffix: Seq<char>) -> bool {
    text.len() >= suffix.len() && text.skip(text.len() - suffix.len()) == suffix
}

/// The serialization that the extension of a path stands for.
pub open spec fn format_of_path(path: Seq<char>) -> Option<RdfFormat> {
    if ends_with(path, seq!['.', 'n', 't']) {
        Some(RdfFormat::NTriples)
    } else if ends_with(path, seq!['.', 't', 't', 'l']) {
        Some(RdfFormat::Turtle)
    } else if ends_with(path, seq!['.', 'n', 'q']) {
        Some(RdfFormat::NQuads)
    } else if ends_with(path, seq!['.', 't', 'r', 'i', 'g']) {
        Some(RdfFormat::TriG)
    } else if ends_with(path, seq!['.', 'r', 'd', 'f']) {
        Some(RdfFormat::RdfXml)
    } else {
        None
    }
}

fn chars_of(s: &str) -> (chars: Vec<char>)
    ensures
        chars@ == s@,
{
    let mut chars: Vec<char> = Vec::new();
    for c in it: s.chars()
        invariant
            it.seq() == s@,
            chars@ == it.seq().take(it.index() as int),
    {
        chars.push(c);
        assert(it.seq().take(it.index() + 1) =~= it.seq().take(it.index() as int).push(c));
    }
    assert(s@.take(s@.len() as int) =~= s@);
    chars
}

fn has_suffix(text: &Vec<char>, suffix: &Vec<char>) -> (found: bool)
    ensures
        found == ends_with(text@, suffix@),
{
    if text.len() < suffix.len() {
        return false;
    }
    let start = text.len() - suffix.len();
    let n = suffix.len();
    let mut i: usize = 0;
    while i < n
        invariant
            n == suffix@.len(),
            start + n == text@.len(),
            text@.len() <= usize::MAX,
            i <= n,
            forall|k: int| 0 <= k < i ==> text@[start + k] == suffix@[k],
        decreases n - i,
    {
        if text[start + i] != suffix[i] {
            assert(text@.skip(start as int)[i as int] != suffix@[i as int]);
            return false;
        }
        i += 1;
    }
    assert(text@.skip(start as int) =~= suffix@);
    true
}

impl RdfFormat {
    /// The serialization that the extension of `path` stands for, if it is
    /// one that is accepted.
    pub fn from_path(path: &str) -> (format: Option<RdfFormat>)
        ensures
            format == format_of_path(path@),
    {
        let chars = chars_of(path);
        if has_suffix(&chars, &vec!['.', 'n', 't']) {
            Some(RdfFormat::NTriples)
        } else if has_suffix(&chars, &vec!['.', 't', 't', 'l']) {
            Some(RdfFormat::Turtle)
        } else if has_suffix(&chars, &vec!['.', 'n', 'q']) {
            Some(RdfFormat::NQuads)
        } else if has_suffix(&chars, &vec!['.', 't', 'r', 'i', 'g']) {
            Some(RdfFormat::TriG)
        } else if has_suffix(&chars, &vec!['.', 'r', 'd', 'f']) {
            Some(RdfFormat::RdfXml)
        } else {
            None
        }
    }
}

/// Why a list of inputs is not accepted.
#[derive(Clone, Copy, Debug, PartialEq, Eq, Structural)]
pub enum InvalidInput {
    /// The list is empty.
    NoFiles,
    /// The extension of the path at this index stands for no serialization
    /// that is accepted.
    UnknownExtension(usize),
}

/// What is to be done with a list of inputs before they are encoded.
#[derive(Debug, PartialEq, Eq)]
pub enum InputPlan {
    /// The one input is N-Triples already and is read as it is.
    PassThrough,
    /// Every input is parsed as the serialization given for it, and the
    /// triples of all are gathered in the order of the inputs.
    Convert(Vec<RdfFormat>),
}

/// The formats of the first `n` paths are known.
pub open spec fn formats_known(paths: Seq<String>, n: int) -> bool {
    forall|i: int| 0 <= i < n ==> format_of_path((#[trigger] paths[i])@) is Some
}

/// Decides what is to be done with the inputs. An empty list is refused, and
/// so is a list with a path whose extension is not known: the error names
/// the first such path. One N-Triples file alone is read as it is. Any other
/// list is converted, each input by the format of its extension.
pub fn plan_inputs(paths: &Vec<String>) -> (result: Result<InputPlan, InvalidInput>)
    ensures
        match result {
            Ok(InputPlan::PassThrough) => paths@.len() == 1 && format_of_path(paths@[0]@) == Some(
                RdfFormat::NTriples,
            ),
            Ok(InputPlan::Convert(formats)) => {
                &&& paths@.len() > 0
                &&& !(paths@.len() == 1 && format_of_path(paths@[0]@) == Some(RdfFormat::NTriples))
                &&& formats@.len() == paths@.len()
                &&& forall|i: int|
                    0 <= i < paths@.len() ==> format_of_path((#[trigger] paths@[i])@) == Some(
                        formats@[i],
                    )
            },
            Err(InvalidInput::NoFiles) => paths@.len() == 0,
            Err(InvalidInput::UnknownExtension(at)) => {
                &&& at < paths@.len()
                &&& formats_known(paths@, at as int)
                &&& format_of_path(paths@[at as int]@) is None
            },
        },
{
    let n = paths.len();
    if n == 0 {
        return Err(InvalidInput::NoFiles);
    }
    let mut formats: Vec<RdfFormat> = Vec::new();
    let mut i: usize = 0;
    while i < n
        invariant
            n == paths@.len(),
            i <= n,
            formats@.len() == i,
            forall|k: int|
                0 <= k < i ==> format_of_path((#[trigger] paths@[k])@) == Some(formats@[k]),
        decreases n - i,
    {
        match RdfFormat::from_path(paths[i].as_str()) {
            Some(format) => {
                formats.push(format);
            },
            None => {
                return Err(InvalidInput::UnknownExtension(i));
            },
        }
        i += 1;
    }
    if n == 1 && formats[0] == RdfFormat::NTriples {
        Ok(InputPlan::PassThrough)
    } else {
        Ok(InputPlan::Convert(formats))
    }
}

} // verus!
