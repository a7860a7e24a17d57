//! The four-section dictionary: the terms of a graph, parted by the roles
//! they play, and the identifiers that the parts give them.

use crate::bitmap_triples::TripleId;
use crate::term_set::{
    lemma_strictly_ascending_distinct, strictly_ascending, term_views,
    terms_size, TermSet,
};
use crate::text::{lemma_term_order_total, term_lt};
use vstd::prelude::*;

verus! {

/// A triple of terms, each in the form in which the dictionary stores it.
pub struct Triple {
    /// The subject: an IRI without angle brackets, or a blank node label.
    pub subject: String,
    /// The predicate: an IRI without angle brackets.
    pub predicate: String,
    /// The object: an IRI without angle brackets, a blank node label, or a
    /// literal with its quotes and its language tag or datatype.
    pub object: String,
}

/// A triple of terms as sequences of characters.
pub struct TripleView {
    /// The subject.
    pub subject: Seq<char>,
    /// The predicate.
    pub predicate: Seq<char>,
    /// The object.
    pub object: Seq<char>,
}

impl View for Triple {
    type V = TripleView;

    open spec fn view(&self) -> TripleView {
        TripleView { subject: self.subject@, predicate: self.predicate@, object: self.object@ }
    }
}

/// The triples of a list, each as sequences of characters.
pub open spec fn triple_views(triples: Seq<Triple>) -> Seq<TripleView> {
    triples.map_values(|t: Triple| t@)
}

/// `t` is the subject of one of the triples.
pub open spec fn is_subject(triples: Seq<TripleView>, t: Seq<char>) -> bool {
    exists|i: int| 0 <= i < triples.len() && (#[trigger] triples[i]).subject == t
}

/// `t` is the predicate of one of the triples.
pub open spec fn is_predicate(triples: Seq<TripleView>, t: Seq<char>) -> bool {
    exists|i: int| 0 <= i < triples.len() && (#[trigger] triples[i]).predicate == t
}

/// `t` is the object of one of the triples.
pub open spec fn is_object(triples: Seq<TripleView>, t: Seq<char>) -> bool {
    exists|i: int| 0 <= i < triples.len() && (#[trigger] triples[i]).object == t
}

/// The four sections of a dictionary.
pub struct DictView {
    /// The terms that are both subject and object.
    pub shared: Seq<Seq<char>>,
    /// The terms that are subject and never object.
    pub subjects: Seq<Seq<char>>,
    /// The predicates.
    pub predicates: Seq<Seq<char>>,
    /// The terms that are object and never subject.
    pub objects: Seq<Seq<char>>,
}

/// `d` is the dictionary of `triples`: every section is in the order of
/// terms and holds each term once; a term that is subject of one triple and
/// object of one is shared; the other subjects and the other objects have a
/// section each; so have the predicates.
pub open spec fn dictionary_for(d: DictView, triples: Seq<TripleView>) -> bool {
    &&& strictly_ascending(d.shared)
    &&& strictly_ascending(d.subjects)
    &&& strictly_ascending(d.predicates)
    &&& strictly_ascending(d.objects)
    &&& forall|t: Seq<char>|
        #![trigger d.shared.contains(t)]
        d.shared.contains(t) <==> is_subject(triples, t) && is_object(triples, t)
    &&& forall|t: Seq<char>|
        #![trigger d.subjects.contains(t)]
        d.subjects.contains(t) <==> is_subject(triples, t) && !is_object(triples, t)
    &&& forall|t: Seq<char>|
        #![trigger d.objects.contains(t)]
        d.objects.contains(t) <==> is_object(triples, t) && !is_subject(triples, t)
    &&& forall|t: Seq<char>|
        #![trigger d.predicates.contains(t)]
        d.predicates.contains(t) <==> is_predicate(triples, t)
}

/// The dictionary of `triples`.
pub open spec fn dictionary_of(triples: Seq<TripleView>) -> DictView {
    choose|d: DictView| dictionary_for(d, triples)
}

/// Two lists in the order of terms, each holding every term once, are the
/// same list if they hold the same terms.
pub proof fn lemma_sorted_terms_unique(a: Seq<Seq<char>>, b: Seq<Seq<char>>)
    requires
        strictly_ascending(a),
        strictly_ascending(b),
        forall|t: Seq<char>| a.contains(t) <==> b.contains(t),
    ensures
        a == b,
    decreases a.len(),
{
    if a.len() == 0 {
        if b.len() > 0 {
            assert(b.contains(b[0]));
        }
        assert(a =~= b);
    } else {
        assert(a.contains(a[0]));
        assert(b.contains(a[0]));
        let j = choose|j: int| 0 <= j < b.len() && b[j] == a[0];
        assert(b.contains(b[0]));
        let i = choose|i: int| 0 <= i < a.len() && a[i] == b[0];
        lemma_term_order_total(a[0], b[0]);
        if i > 0 {
            assert(term_lt_pair(a, 0, i));
        }
        if j > 0 {
            assert(term_lt_pair(b, 0, j));
        }
        assert(a[0] == b[0]);
        let a1 = a.drop_first();
        let b1 = b.drop_first();
        assert forall|x: int, y: int| 0 <= x < y < a1.len() implies term_lt(
            #[trigger] a1[x],
            #[trigger] a1[y],
        ) by {
            assert(term_lt_pair(a, x + 1, y + 1));
        }
        assert forall|x: int, y: int| 0 <= x < y < b1.len() implies term_lt(
            #[trigger] b1[x],
            #[trigger] b1[y],
        ) by {
            assert(term_lt_pair(b, x + 1, y + 1));
        }
        assert forall|t: Seq<char>| a1.contains(t) <==> b1.contains(t) by {
            if a1.contains(t) {
                let k = choose|k: int| 0 <= k < a1.len() && a1[k] == t;
                assert(a[k + 1] == t);
                assert(a.contains(t));
                let m = choose|m: int| 0 <= m < b.len() && b[m] == t;
                if m == 0 {
                    lemma_strictly_ascending_distinct(a, 0, k + 1);
                }
                assert(b1[m - 1] == t);
            }
            if b1.contains(t) {
                let k = choose|k: int| 0 <= k < b1.len() && b1[k] == t;
                assert(b[k + 1] == t);
                assert(b.contains(t));
                let m = choose|m: int| 0 <= m < a.len() && a[m] == t;
                if m == 0 {
                    lemma_strictly_ascending_distinct(b, 0, k + 1);
                }
                assert(a1[m - 1] == t);
            }
        }
        lemma_sorted_terms_unique(a1, b1);
        assert(a =~= seq![a[0]] + a1);
        assert(b =~= seq![b[0]] + b1);
    }
}

/// The terms at two places of a list stand in the order of terms.
pub open spec fn term_lt_pair(terms: Seq<Seq<char>>, i: int, j: int) -> bool {
    term_lt(terms[i], terms[j])
}

/// A list of triples has one dictionary only.
pub proof fn lemma_dictionary_unique(d1: DictView, d2: DictView, triples: Seq<TripleView>)
    requires
        dictionary_for(d1, triples),
        dictionary_for(d2, triples),
    ensures
        d1 == d2,
{
    assert forall|t: Seq<char>| d1.shared.contains(t) <==> d2.shared.contains(t) by {}
    assert forall|t: Seq<char>| d1.subjects.contains(t) <==> d2.subjects.contains(t) by {}
    assert forall|t: Seq<char>| d1.predicates.contains(t) <==> d2.predicates.contains(t) by {}
    assert forall|t: Seq<char>| d1.objects.contains(t) <==> d2.objects.contains(t) by {}
    lemma_sorted_terms_unique(d1.shared, d2.shared);
    lemma_sorted_terms_unique(d1.subjects, d2.subjects);
    lemma_sorted_terms_unique(d1.predicates, d2.predicates);
    lemma_sorted_terms_unique(d1.objects, d2.objects);
}

/// A term that is subject of one triple and object of one is shared, and is
/// in neither of the other two sections of subjects and objects; no term is
/// in two of the three.
pub proof fn lemma_shared_terms(d: DictView, triples: Seq<TripleView>, t: Seq<char>)
    requires
        dictionary_for(d, triples),
    ensures
        is_subject(triples, t) && is_object(triples, t) ==> d.shared.contains(t)
            && !d.subjects.contains(t) && !d.objects.contains(t),
        !(d.shared.contains(t) && d.subjects.contains(t)),
        !(d.shared.contains(t) && d.objects.contains(t)),
        !(d.subjects.contains(t) && d.objects.contains(t)),
{
}

/// The place of `t` in a list that holds it, counted from zero.
pub open spec fn place_of(terms: Seq<Seq<char>>, t: Seq<char>) -> int {
    choose|i: int| 0 <= i < terms.len() && terms[i] == t
}

/// The identifier of `t` in a role that has `own` as its section besides the
/// shared one: shared terms count from 1, the terms of `own` go on from
/// there, and 0 stands for a term that neither section holds.
pub open spec fn role_id(shared: Seq<Seq<char>>, own: Seq<Seq<char>>, t: Seq<char>) -> nat {
    if shared.contains(t) {
        (place_of(shared, t) + 1) as nat
    } else if own.contains(t) {
        (shared.len() + place_of(own, t) + 1) as nat
    } else {
        0
    }
}

/// The identifier of `t` as a subject, or 0.
pub open spec fn subject_id(d: DictView, t: Seq<char>) -> nat {
    role_id(d.shared, d.subjects, t)
}

/// The identifier of `t` as an object, or 0.
pub open spec fn object_id(d: DictView, t: Seq<char>) -> nat {
    role_id(d.shared, d.objects, t)
}

/// The identifier of `t` as a predicate, or 0. Predicates count from 1 on
/// their own.
pub open spec fn predicate_id(d: DictView, t: Seq<char>) -> nat {
    role_id(Seq::empty(), d.predicates, t)
}

/// The identifiers of a triple's terms in their roles.
pub open spec fn encoded_triple(d: DictView, t: TripleView) -> TripleId {
    (subject_id(d, t.subject) as u32, predicate_id(d, t.predicate) as u32, object_id(d, t.object) as u32)
}

/// The triples of a list as identifiers, in the order of the list.
pub open spec fn encoded_triples(d: DictView, triples: Seq<TripleView>) -> Seq<TripleId> {
    Seq::new(triples.len(), |i: int| encoded_triple(d, triples[i]))
}

/// The term that has the identifier `id` in a role that has `own` as its
/// section besides the shared one.
pub open spec fn role_term(shared: Seq<Seq<char>>, own: Seq<Seq<char>>, id: int) -> Seq<char> {
    if id <= shared.len() {
        shared[id - 1]
    } else {
        own[id - 1 - shared.len()]
    }
}

/// The terms that a triple of identifiers stands for.
pub open spec fn decoded_terms(d: DictView, t: TripleId) -> TripleView {
    TripleView {
        subject: role_term(d.shared, d.subjects, t.0 as int),
        predicate: role_term(Seq::empty(), d.predicates, t.1 as int),
        object: role_term(d.shared, d.objects, t.2 as int),
    }
}

/// The identifier of a term leads back to the term.
pub proof fn lemma_role_id_round_trip(shared: Seq<Seq<char>>, own: Seq<Seq<char>>, t: Seq<char>)
    requires
        shared.contains(t) || own.contains(t),
    ensures
        1 <= role_id(shared, own, t) <= shared.len() + own.len(),
        role_term(shared, own, role_id(shared, own, t) as int) == t,
{
}

/// Under the dictionary of a list of triples, the identifiers of each of its
/// triples lead back to the triple.
pub proof fn lemma_encoded_triple_round_trip(d: DictView, triples: Seq<TripleView>, i: int)
    requires
        dictionary_for(d, triples),
        fits_ids(d),
        0 <= i < triples.len(),
    ensures
        decoded_terms(d, encoded_triple(d, triples[i])) == triples[i],
{
    let t = triples[i];
    assert(is_subject(triples, t.subject));
    assert(is_predicate(triples, t.predicate));
    assert(is_object(triples, t.object));
    assert(d.shared.contains(t.subject) || d.subjects.contains(t.subject));
    assert(d.shared.contains(t.object) || d.objects.contains(t.object));
    assert(d.predicates.contains(t.predicate));
    lemma_role_id_round_trip(d.shared, d.subjects, t.subject);
    lemma_role_id_round_trip(d.shared, d.objects, t.object);
    lemma_role_id_round_trip(Seq::empty(), d.predicates, t.predicate);
}

/// Every identifier of the dictionary fits in 32 bits.
pub open spec fn fits_ids(d: DictView) -> bool {
    &&& d.shared.len() + d.subjects.len() <= u32::MAX
    &&& d.shared.len() + d.objects.len() <= u32::MAX
    &&& d.predicates.len() <= u32::MAX
}

/// The identifier of a term is at most the number of terms in its role, and
/// it is zero only for a term that the role does not have.
pub proof fn lemma_role_id_range(shared: Seq<Seq<char>>, own: Seq<Seq<char>>, t: Seq<char>)
    ensures
        role_id(shared, own, t) <= shared.len() + own.len(),
        role_id(shared, own, t) >= 1 <==> shared.contains(t) || own.contains(t),
{
}

/// The identifiers of an encoded triple are in range: for triple `i` of a
/// list and the dictionary of that list, subject, predicate and object are
/// at least 1 and at most the number of subjects, predicates and objects.
pub proof fn lemma_encoded_ids_in_range(d: DictView, triples: Seq<TripleView>, i: int)
    requires
        dictionary_for(d, triples),
        0 <= i < triples.len(),
    ensures
        1 <= subject_id(d, triples[i].subject) <= d.shared.len() + d.subjects.len(),
        1 <= predicate_id(d, triples[i].predicate) <= d.predicates.len(),
        1 <= object_id(d, triples[i].object) <= d.shared.len() + d.objects.len(),
{
    let t = triples[i];
    assert(is_subject(triples, t.subject));
    assert(is_predicate(triples, t.predicate));
    assert(is_object(triples, t.object));
    assert(d.shared.contains(t.subject) || d.subjects.contains(t.subject));
    assert(d.shared.contains(t.object) || d.objects.contains(t.object));
    assert(d.predicates.contains(t.predicate));
    lemma_role_id_range(d.shared, d.subjects, t.subject);
    lemma_role_id_range(d.shared, d.objects, t.object);
    lemma_role_id_range(Seq::empty(), d.predicates, t.predicate);
}

proof fn lemma_section_size_bound(terms: nat, size: nat)
    requires
        terms <= u32::MAX,
        size <= terms * 0x1_0000_0000_0000_0000,
    ensures
        size <= 0x1_0000_0000_0000_0000_0000_0000,
{
    assert(terms * 0x1_0000_0000_0000_0000 <= 0x1_0000_0000 * 0x1_0000_0000_0000_0000)
        by (nonlinear_arith)
        requires
            terms <= 0x1_0000_0000,
    ;
}

/// The one way in which building a dictionary fails.
#[derive(Clone, Copy, Debug, PartialEq, Eq, Structural)]
pub enum DictionaryError {
    /// A role has more terms than 32-bit identifiers can number.
    TooManyTerms,
}

/// The dictionary of a graph in four sections.
pub struct FourSectDict {
    shared: TermSet,
    subjects: TermSet,
    predicates: TermSet,
    objects: TermSet,
}

impl View for FourSectDict {
    type V = DictView;

    closed spec fn view(&self) -> DictView {
        DictView {
            shared: self.shared@,
            subjects: self.subjects@,
            predicates: self.predicates@,
            objects: self.objects@,
        }
    }
}

fn role_id_of(shared: &TermSet, own: &TermSet, term: &str) -> (id: u32)
    requires
        shared@.len() + own@.len() <= u32::MAX,
    ensures
        id == role_id(shared@, own@, term@),
{
    match shared.position(term) {
        Some(i) => {
            proof {
                lemma_strictly_ascending_distinct(shared@, i as int, place_of(shared@, term@));
            }
            (i + 1) as u32
        },
        None => match own.position(term) {
            Some(i) => {
                proof {
                    lemma_strictly_ascending_distinct(own@, i as int, place_of(own@, term@));
                }
                (shared.len() + i + 1) as u32
            },
            None => 0,
        },
    }
}

impl FourSectDict {
    #[verifier::type_invariant]
    spec fn numbered(self) -> bool {
        fits_ids(
            DictView {
                shared: self.shared@,
                subjects: self.subjects@,
                predicates: self.predicates@,
                objects: self.objects@,
            },
        )
    }

    /// Builds the dictionary of `triples`. It fails only where a role has
    /// more terms than 32-bit identifiers can number.
    pub fn build(triples: &Vec<Triple>) -> (result: Result<FourSectDict, DictionaryError>)
        ensures
            match result {
                Ok(d) => d@ == dictionary_of(triple_views(triples@)) && dictionary_for(
                    d@,
                    triple_views(triples@),
                ) && fits_ids(d@),
                Err(_) => !fits_ids(dictionary_of(triple_views(triples@))),
            },
    {
        let ghost ts = triple_views(triples@);
        let n = triples.len();
        let mut subject_terms: Vec<String> = Vec::new();
        let mut predicate_terms: Vec<String> = Vec::new();
        let mut object_terms: Vec<String> = Vec::new();
        let mut i: usize = 0;
        while i < n
            invariant
                ts == triple_views(triples@),
                n == triples.len(),
                i <= n,
                subject_terms@.len() == i,
                predicate_terms@.len() == i,
                object_terms@.len() == i,
                forall|k: int| 0 <= k < i ==> (#[trigger] subject_terms@[k])@ == ts[k].subject,
                forall|k: int| 0 <= k < i ==> (#[trigger] predicate_terms@[k])@ == ts[k].predicate,
                forall|k: int| 0 <= k < i ==> (#[trigger] object_terms@[k])@ == ts[k].object,
            decreases n - i,
        {
            subject_terms.push(triples[i].subject.clone());
            predicate_terms.push(triples[i].predicate.clone());
            object_terms.push(triples[i].object.clone());
            i += 1;
        }
        let ghost subject_views = term_views(subject_terms@);
        let ghost predicate_views = term_views(predicate_terms@);
        let ghost object_views = term_views(object_terms@);
        let subjects_seen = TermSet::from_terms(subject_terms);
        let predicates = TermSet::from_terms(predicate_terms);
        let objects_seen = TermSet::from_terms(object_terms);
        let shared = subjects_seen.intersection(&objects_seen);
        let subjects = subjects_seen.difference(&objects_seen);
        let objects = objects_seen.difference(&subjects_seen);
        let ghost d = DictView {
            shared: shared@,
            subjects: subjects@,
            predicates: predicates@,
            objects: objects@,
        };
        proof {
            assert forall|t: Seq<char>| subjects_seen@.contains(t) <==> is_subject(ts, t) by {
                if subject_views.contains(t) {
                    let k = choose|k: int| 0 <= k < subject_views.len() && subject_views[k] == t;
                    assert(ts[k].subject == t);
                }
                if is_subject(ts, t) {
                    let k = choose|k: int| 0 <= k < ts.len() && (#[trigger] ts[k]).subject == t;
                    assert(subject_views[k] == t);
                }
            }
            assert forall|t: Seq<char>| objects_seen@.contains(t) <==> is_object(ts, t) by {
                if object_views.contains(t) {
                    let k = choose|k: int| 0 <= k < object_views.len() && object_views[k] == t;
                    assert(ts[k].object == t);
                }
                if is_object(ts, t) {
                    let k = choose|k: int| 0 <= k < ts.len() && (#[trigger] ts[k]).object == t;
                    assert(object_views[k] == t);
                }
            }
            assert forall|t: Seq<char>| predicates@.contains(t) <==> is_predicate(ts, t) by {
                if predicate_views.contains(t) {
                    let k = choose|k: int|
                        0 <= k < predicate_views.len() && predicate_views[k] == t;
                    assert(ts[k].predicate == t);
                }
                if is_predicate(ts, t) {
                    let k = choose|k: int| 0 <= k < ts.len() && (#[trigger] ts[k]).predicate == t;
                    assert(predicate_views[k] == t);
                }
            }
            assert(dictionary_for(d, ts));
            lemma_dictionary_unique(d, dictionary_of(ts), ts);
        }
        let limit = u32::MAX as usize;
        if shared.len() > limit || subjects.len() > limit - shared.len() || objects.len() > limit
            - shared.len() || predicates.len() > limit {
            return Err(DictionaryError::TooManyTerms);
        }
        Ok(FourSectDict { shared, subjects, predicates, objects })
    }

    /// The terms that are both subject and object.
    pub fn shared(&self) -> (set: &TermSet)
        ensures
            set@ == self@.shared,
    {
        &self.shared
    }

    /// The terms that are subject and never object.
    pub fn subjects(&self) -> (set: &TermSet)
        ensures
            set@ == self@.subjects,
    {
        &self.subjects
    }

    /// The predicates.
    pub fn predicates(&self) -> (set: &TermSet)
        ensures
            set@ == self@.predicates,
    {
        &self.predicates
    }

    /// The terms that are object and never subject.
    pub fn objects(&self) -> (set: &TermSet)
        ensures
            set@ == self@.objects,
    {
        &self.objects
    }

    /// The number of bytes that the terms of all four sections take in
    /// UTF-8.
    pub fn size_in_bytes(&self) -> (size: u128)
        ensures
            size == terms_size(self@.shared) + terms_size(self@.subjects) + terms_size(
                self@.predicates,
            ) + terms_size(self@.objects),
    {
        let a = self.shared.size_in_bytes();
        let b = self.subjects.size_in_bytes();
        let c = self.predicates.size_in_bytes();
        let d = self.objects.size_in_bytes();
        proof {
            use_type_invariant(self);
            lemma_section_size_bound(self.shared@.len(), a as nat);
            lemma_section_size_bound(self.subjects@.len(), b as nat);
            lemma_section_size_bound(self.predicates@.len(), c as nat);
            lemma_section_size_bound(self.objects@.len(), d as nat);
        }
        a + b + c + d
    }

    /// The number of distinct subjects: the shared terms and the terms that
    /// are subject only.
    pub fn num_subjects(&self) -> (n: u32)
        ensures
            n == self@.shared.len() + self@.subjects.len(),
    {
        proof {
            use_type_invariant(self);
        }
        (self.shared.len() + self.subjects.len()) as u32
    }

    /// The number of distinct objects: the shared terms and the terms that
    /// are object only.
    pub fn num_objects(&self) -> (n: u32)
        ensures
            n == self@.shared.len() + self@.objects.len(),
    {
        proof {
            use_type_invariant(self);
        }
        (self.shared.len() + self.objects.len()) as u32
    }

    /// The number of predicates.
    pub fn num_predicates(&self) -> (n: u32)
        ensures
            n == self@.predicates.len(),
    {
        proof {
            use_type_invariant(self);
        }
        self.predicates.len() as u32
    }

    /// The number of shared terms.
    pub fn num_shared(&self) -> (n: u32)
        ensures
            n == self@.shared.len(),
    {
        proof {
            use_type_invariant(self);
        }
        self.shared.len() as u32
    }

    /// The identifier of `term` as a subject; 0 where it is none.
    pub fn subject_id(&self, term: &str) -> (id: u32)
        ensures
            id == subject_id(self@, term@),
    {
        proof {
            use_type_invariant(self);
        }
        role_id_of(&self.shared, &self.subjects, term)
    }

    /// The identifier of `term` as an object; 0 where it is none.
    pub fn object_id(&self, term: &str) -> (id: u32)
        ensures
            id == object_id(self@, term@),
    {
        proof {
            use_type_invariant(self);
        }
        role_id_of(&self.shared, &self.objects, term)
    }

    /// The identifier of `term` as a predicate; 0 where it is none.
    pub fn predicate_id(&self, term: &str) -> (id: u32)
        ensures
            id == predicate_id(self@, term@),
    {
        proof {
            use_type_invariant(self);
        }
        let none = TermSet::new();
        assert(none@ =~= Seq::<Seq<char>>::empty());
        role_id_of(&none, &self.predicates, term)
    }

    /// The triples of the list as the identifiers of their terms, in the
    /// order of the list.
    pub fn encode(&self, triples: &Vec<Triple>) -> (ids: Vec<TripleId>)
        ensures
            ids@ == encoded_triples(self@, triple_views(triples@)),
    {
        let ghost ts = triple_views(triples@);
        let n = triples.len();
        let mut ids: Vec<TripleId> = Vec::new();
        let mut i: usize = 0;
        while i < n
            invariant
                ts == triple_views(triples@),
                n == triples.len(),
                i <= n,
                ids@.len() == i,
                forall|k: int| 0 <= k < i ==> #[trigger] ids@[k] == encoded_triple(self@, ts[k]),
            decreases n - i,
        {
            let t = &triples[i];
            let s = self.subject_id(t.subject.as_str());
            let p = self.predicate_id(t.predicate.as_str());
            let o = self.object_id(t.object.as_str());
            ids.push((s, p, o));
            i += 1;
        }
        assert(ids@ =~= encoded_triples(self@, ts));
        ids
    }
}

} // verus!
