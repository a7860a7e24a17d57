//! Bitmap triples: the triples of a graph, as identifiers in
//! subject-predicate-object order, held in two arrays and two bit sequences.

use crate::common::{
    bitmap_section, lemma_bitmap_reads_back, lemma_u32_array_reads_back, read_bitmap,
    read_u32_array, save_bitmap, save_u32_vec, u32_array_section, Framed,
};
use vstd::prelude::*;
use vstd::relations::{sorted_by, total_ordering};
use vstd::multiset::group_multiset_axioms;
use vstd::seq_lib::{lemma_multiset_commutative, lemma_sorted_unique, to_multiset_build};

verus! {

/// A triple as the identifiers of its subject, predicate and object.
pub type TripleId = (u32, u32, u32);

/// The order of triples: by subject, then predicate, then object.
pub open spec fn triple_leq(a: TripleId, b: TripleId) -> bool {
    a.0 < b.0 || (a.0 == b.0 && (a.1 < b.1 || (a.1 == b.1 && a.2 <= b.2)))
}

/// The order of triples as a relation.
pub open spec fn triple_order() -> spec_fn(TripleId, TripleId) -> bool {
    |a: TripleId, b: TripleId| triple_leq(a, b)
}

/// The order of triples is a total order.
pub proof fn lemma_triple_order_total()
    ensures
        total_ordering(triple_order()),
{
    let r = triple_order();
    assert forall|a: TripleId, b: TripleId| #[trigger] r(a, b) && r(b, a) implies a == b by {}
}

/// What is wrong with a triple where it stands in a list.
#[derive(Clone, Copy, Debug, PartialEq, Eq, Structural)]
pub enum Violation {
    /// One of the three identifiers is zero.
    ZeroId,
    /// The subject is neither that of the triple before nor the next
    /// identifier after it; the first subject of a list is not 1.
    SubjectJump,
    /// The subject is that of the triple before and the predicate is
    /// smaller.
    PredicateRegression,
    /// Subject and predicate are those of the triple before and the object
    /// is smaller.
    ObjectRegression,
}

/// A list of triples that cannot be encoded: the place of the first triple
/// that breaks the encoder's rules, and the rule it breaks.
#[derive(Clone, Copy, Debug, PartialEq, Eq, Structural)]
pub struct EncoderInvariantViolation {
    /// The index of the offending triple in the list.
    pub index: usize,
    /// What is wrong with it.
    pub kind: Violation,
}

/// The subject of the triple before `i`; before the first triple it is 0, so
/// that the subjects start at 1.
pub open spec fn subject_before(t: Seq<TripleId>, i: int) -> int {
    if i == 0 {
        0
    } else {
        t[i - 1].0 as int
    }
}

/// The rule that triple `i` breaks, if any. A zero identifier is reported
/// first, then a subject that is not dense, then a predicate and then an
/// object that fall behind the triple before.
pub open spec fn violation_at(t: Seq<TripleId>, i: int) -> Option<Violation>
    recommends
        0 <= i < t.len(),
{
    let (s, p, o) = t[i];
    if s == 0 || p == 0 || o == 0 {
        Some(Violation::ZeroId)
    } else if s != subject_before(t, i) && s != subject_before(t, i) + 1 {
        Some(Violation::SubjectJump)
    } else if i > 0 && s == t[i - 1].0 && p < t[i - 1].1 {
        Some(Violation::PredicateRegression)
    } else if i > 0 && s == t[i - 1].0 && p == t[i - 1].1 && o < t[i - 1].2 {
        Some(Violation::ObjectRegression)
    } else {
        None
    }
}

/// The first `n` triples break no rule.
pub open spec fn valid_upto(t: Seq<TripleId>, n: int) -> bool {
    forall|i: int| 0 <= i < n ==> (#[trigger] violation_at(t, i)) is None
}

/// The list can be encoded: no identifier is zero, the subjects are 1, 2, 3
/// and so on without a gap, and within a subject the predicates, within a
/// subject and predicate the objects, do not fall.
pub open spec fn encodable(t: Seq<TripleId>) -> bool {
    valid_upto(t, t.len() as int)
}

/// Triple `i` repeats the one before it.
pub open spec fn repeats(t: Seq<TripleId>, i: int) -> bool {
    i > 0 && t[i] == t[i - 1]
}

/// Triple `i` is the first with its subject and predicate.
pub open spec fn opens_pair(t: Seq<TripleId>, i: int) -> bool {
    i == 0 || t[i].0 != t[i - 1].0 || t[i].1 != t[i - 1].1
}

/// Triple `i` is the first with its subject.
pub open spec fn opens_subject(t: Seq<TripleId>, i: int) -> bool {
    i == 0 || t[i].0 != t[i - 1].0
}

/// The array Y after the first `n` triples: the predicate of every triple
/// that opens a pair of subject and predicate.
pub open spec fn y_upto(t: Seq<TripleId>, n: nat) -> Seq<u32>
    decreases n,
{
    if n == 0 {
        Seq::empty()
    } else if opens_pair(t, n - 1) {
        y_upto(t, (n - 1) as nat).push(t[n - 1].1)
    } else {
        y_upto(t, (n - 1) as nat)
    }
}

/// The array Z after the first `n` triples: the object of every triple that
/// does not repeat the one before it.
pub open spec fn z_upto(t: Seq<TripleId>, n: nat) -> Seq<u32>
    decreases n,
{
    if n == 0 {
        Seq::empty()
    } else if repeats(t, n - 1) {
        z_upto(t, (n - 1) as nat)
    } else {
        z_upto(t, (n - 1) as nat).push(t[n - 1].2)
    }
}

/// The bits of Y that are settled after the first `n` triples. The bit of an
/// entry of Y is known when the next entry is made: it is 1 where that next
/// entry opens a subject, for then the entry was the last of its subject.
pub open spec fn by_upto(t: Seq<TripleId>, n: nat) -> Seq<bool>
    decreases n,
{
    if n == 0 {
        Seq::empty()
    } else if n - 1 > 0 && opens_pair(t, n - 1) {
        by_upto(t, (n - 1) as nat).push(opens_subject(t, n - 1))
    } else {
        by_upto(t, (n - 1) as nat)
    }
}

/// The bits of Z that are settled after the first `n` triples. The bit of an
/// entry of Z is known when the next entry is made: it is 1 where that next
/// entry opens a pair, for then the entry was the last of its pair.
pub open spec fn bz_upto(t: Seq<TripleId>, n: nat) -> Seq<bool>
    decreases n,
{
    if n == 0 {
        Seq::empty()
    } else if n - 1 > 0 && !repeats(t, n - 1) {
        bz_upto(t, (n - 1) as nat).push(opens_pair(t, n - 1))
    } else {
        bz_upto(t, (n - 1) as nat)
    }
}

/// What bitmap triples hold.
pub struct BitmapTriplesView {
    /// The predicate of every pair of subject and predicate, in order.
    pub y: Seq<u32>,
    /// The object of every triple, in order.
    pub z: Seq<u32>,
    /// One bit for each entry of `y`: 1 on the last predicate of a subject.
    pub by: Seq<bool>,
    /// One bit for each entry of `z`: 1 on the last object of a pair.
    pub bz: Seq<bool>,
}

/// The bitmap triples of a list of triples: the two arrays, and the two bit
/// sequences closed by a final 1 each. For the empty list the arrays are
/// empty and each bit sequence is that closing 1 alone.
pub open spec fn bitmap_triples(t: Seq<TripleId>) -> BitmapTriplesView {
    BitmapTriplesView {
        y: y_upto(t, t.len()),
        z: z_upto(t, t.len()),
        by: by_upto(t, t.len()).push(true),
        bz: bz_upto(t, t.len()).push(true),
    }
}

/// The serialized form of bitmap triples, without the control block before
/// it: the bits of Y, the bits of Z, the array Y, the array Z.
pub open spec fn bitmap_triples_sections(b: BitmapTriplesView) -> Seq<u8> {
    bitmap_section(b.by) + bitmap_section(b.bz) + u32_array_section(b.y) + u32_array_section(b.z)
}

/// The number of 1 bits among the first `n` bits.
pub open spec fn ones(bits: Seq<bool>, n: nat) -> nat
    decreases n,
{
    if n == 0 {
        0
    } else if bits[n - 1] {
        ones(bits, (n - 1) as nat) + 1
    } else {
        ones(bits, (n - 1) as nat)
    }
}

/// The triple that entry `k` of Z stands for. Its pair of subject and
/// predicate is found by counting the pairs that end before it, its subject
/// by counting the subjects that end before that pair.
pub open spec fn decoded_triple(b: BitmapTriplesView, k: int) -> TripleId {
    let pair = ones(b.bz, k as nat);
    let subject = 1 + ones(b.by, pair);
    (subject as u32, b.y[pair as int], b.z[k])
}

/// The triples that bitmap triples stand for, in order.
pub open spec fn decoded(b: BitmapTriplesView) -> Seq<TripleId> {
    Seq::new(b.z.len(), |k: int| decoded_triple(b, k))
}

/// The first `n` triples without those that repeat the one before them.
pub open spec fn distinct_upto(t: Seq<TripleId>, n: nat) -> Seq<TripleId>
    decreases n,
{
    if n == 0 {
        Seq::empty()
    } else if repeats(t, n - 1) {
        distinct_upto(t, (n - 1) as nat)
    } else {
        distinct_upto(t, (n - 1) as nat).push(t[n - 1])
    }
}

/// The list without the triples that repeat the one before them.
pub open spec fn without_repeats(t: Seq<TripleId>) -> Seq<TripleId> {
    distinct_upto(t, t.len())
}

/// A bit appended to a sequence does not change the count over the bits
/// before it.
pub proof fn lemma_ones_push(bits: Seq<bool>, bit: bool, n: nat)
    requires
        n <= bits.len(),
    ensures
        ones(bits.push(bit), n) == ones(bits, n),
    decreases n,
{
    if n > 0 {
        lemma_ones_push(bits, bit, (n - 1) as nat);
    }
}

/// The count of 1 bits does not fall as more bits are counted.
pub proof fn lemma_ones_grows(bits: Seq<bool>, m: nat, n: nat)
    requires
        m <= n,
    ensures
        ones(bits, m) <= ones(bits, n),
    decreases n,
{
    if m < n {
        lemma_ones_grows(bits, m, (n - 1) as nat);
    }
}

/// What holds of the arrays and settled bits after the first `n` triples of
/// an encodable list: their lengths fit together, the counts of 1 bits give
/// the last pair and the last subject, and every entry of Z decodes to the
/// triple it was made from.
pub open spec fn walk_decodes(t: Seq<TripleId>, n: nat) -> bool {
    let y = y_upto(t, n);
    let z = z_upto(t, n);
    let by = by_upto(t, n);
    let bz = bz_upto(t, n);
    let d = distinct_upto(t, n);
    &&& z.len() == d.len()
    &&& z.len() == bz.len() + 1
    &&& y.len() == by.len() + 1
    &&& ones(bz, bz.len()) + 1 == y.len()
    &&& ones(by, by.len()) + 1 == t[n - 1].0
    &&& y.last() == t[n - 1].1
    &&& d.last() == t[n - 1]
    &&& forall|k: int|
        0 <= k < z.len() ==> #[trigger] d[k] == (
            (1 + ones(by, ones(bz, k as nat))) as u32,
            y[ones(bz, k as nat) as int],
            z[k],
        )
}

proof fn lemma_walk_decodes(t: Seq<TripleId>, n: nat)
    requires
        encodable(t),
        1 <= n <= t.len(),
    ensures
        walk_decodes(t, n),
    decreases n,
{
    let i = n - 1;
    assert(violation_at(t, i) is None);
    let y = y_upto(t, n);
    let z = z_upto(t, n);
    let by = by_upto(t, n);
    let bz = bz_upto(t, n);
    let d = distinct_upto(t, n);
    if n == 1 {
        assert(y_upto(t, 0).len() == 0);
        assert(z_upto(t, 0).len() == 0);
        assert(by_upto(t, 0).len() == 0);
        assert(bz_upto(t, 0).len() == 0);
        assert(distinct_upto(t, 0).len() == 0);
        assert(ones(bz, 0) == 0);
        assert(ones(by, 0) == 0);
    } else {
        let m = (n - 1) as nat;
        lemma_walk_decodes(t, m);
        let y0 = y_upto(t, m);
        let z0 = z_upto(t, m);
        let by0 = by_upto(t, m);
        let bz0 = bz_upto(t, m);
        let d0 = distinct_upto(t, m);
        if repeats(t, i) {
        } else {
            let bit_z = opens_pair(t, i);
            assert(bz == bz0.push(bit_z));
            assert(z == z0.push(t[i].2));
            assert(d == d0.push(t[i]));
            lemma_ones_push(bz0, bit_z, bz0.len());
            if opens_pair(t, i) {
                let bit_y = opens_subject(t, i);
                assert(by == by0.push(bit_y));
                assert(y == y0.push(t[i].1));
                lemma_ones_push(by0, bit_y, by0.len());
            }
            assert forall|k: int| 0 <= k < z.len() implies #[trigger] d[k] == (
                (1 + ones(by, ones(bz, k as nat))) as u32,
                y[ones(bz, k as nat) as int],
                z[k],
            ) by {
                if k < z0.len() {
                    lemma_ones_push(bz0, bit_z, k as nat);
                    lemma_ones_grows(bz0, k as nat, bz0.len());
                    let pair = ones(bz0, k as nat);
                    assert(d[k] == d0[k]);
                    if opens_pair(t, i) {
                        lemma_ones_push(by0, opens_subject(t, i), pair);
                    }
                }
            }
        }
    }
}

/// Bitmap triples can be read back: decoding the arrays and bit sequences of
/// an encodable list gives the list, in order, each triple once.
pub proof fn lemma_bitmap_triples_round_trip(t: Seq<TripleId>)
    requires
        encodable(t),
    ensures
        decoded(bitmap_triples(t)) == without_repeats(t),
{
    let b = bitmap_triples(t);
    let n = t.len();
    if n == 0 {
        assert(decoded(b) =~= without_repeats(t));
    } else {
        lemma_walk_decodes(t, n);
        let by0 = by_upto(t, n);
        let bz0 = bz_upto(t, n);
        let d = without_repeats(t);
        assert forall|k: int| 0 <= k < b.z.len() implies decoded_triple(b, k) == d[k] by {
            lemma_ones_push(bz0, true, k as nat);
            lemma_ones_grows(bz0, k as nat, bz0.len());
            lemma_ones_push(by0, true, ones(bz0, k as nat));
        }
        assert(decoded(b) =~= d);
    }
}

/// How the parts of bitmap triples fit together for a list that is not
/// empty: one bit for each entry of Y and of Z, as many 1 bits in the bits of
/// Z as Y has entries, and as many 1 bits in the bits of Y as there are
/// subjects.
pub proof fn lemma_bitmap_triples_shape(t: Seq<TripleId>)
    requires
        encodable(t),
        t.len() > 0,
    ensures
        ({
            let b = bitmap_triples(t);
            &&& b.y.len() == b.by.len()
            &&& b.z.len() == b.bz.len()
            &&& ones(b.bz, b.bz.len()) == b.y.len()
            &&& ones(b.by, b.by.len()) == t.last().0
            &&& b.by.last()
            &&& b.bz.last()
        }),
{
    lemma_walk_decodes(t, t.len());
    let by0 = by_upto(t, t.len());
    let bz0 = bz_upto(t, t.len());
    lemma_ones_push(by0, true, by0.len());
    lemma_ones_push(bz0, true, bz0.len());
}

/// In a sorted list, the triples that do not repeat the one before them are
/// the triples of the list, each once and in strictly rising order.
pub proof fn lemma_without_repeats(t: Seq<TripleId>, n: nat)
    requires
        sorted_by(t, triple_order()),
        n <= t.len(),
    ensures
        ({
            let d = distinct_upto(t, n);
            &&& forall|i: int, j: int|
                0 <= i < j < d.len() ==> triple_leq(#[trigger] d[i], #[trigger] d[j]) && d[i]
                    != d[j]
            &&& forall|x: TripleId| d.contains(x) <==> t.take(n as int).contains(x)
            &&& n > 0 ==> d.len() > 0 && d.last() == t[n - 1]
        }),
    decreases n,
{
    let d = distinct_upto(t, n);
    if n == 0 {
        assert(t.take(0).len() == 0);
    } else {
        let m = (n - 1) as nat;
        let d0 = distinct_upto(t, m);
        lemma_without_repeats(t, m);
        let last = t[n - 1];
        assert(t.take(n as int) =~= t.take(m as int).push(last));
        assert forall|x: TripleId| d.contains(x) <==> t.take(n as int).contains(x) by {
            if t.take(n as int).contains(x) {
                let k = choose|k: int| 0 <= k < n && t.take(n as int)[k] == x;
                if k < m {
                    assert(t.take(m as int)[k] == x);
                    assert(t.take(m as int).contains(x));
                    assert(d0.contains(x));
                    let a = choose|a: int| 0 <= a < d0.len() && d0[a] == x;
                    assert(d[a] == x);
                } else {
                    if repeats(t, n - 1) {
                        assert(d0.last() == x);
                        assert(d[d.len() - 1] == x);
                    } else {
                        assert(d[d.len() - 1] == x);
                    }
                }
            }
            if d.contains(x) {
                let a = choose|a: int| 0 <= a < d.len() && d[a] == x;
                if a < d0.len() {
                    assert(d0[a] == x);
                    assert(d0.contains(x));
                    assert(t.take(m as int).contains(x));
                    let k = choose|k: int| 0 <= k < m && t.take(m as int)[k] == x;
                    assert(t.take(n as int)[k] == x);
                } else {
                    assert(t.take(n as int)[n - 1] == x);
                }
            }
        }
        if !repeats(t, n - 1) {
            assert(d == d0.push(last));
            assert forall|i: int, j: int| 0 <= i < j < d.len() implies triple_leq(
                #[trigger] d[i],
                #[trigger] d[j],
            ) && d[i] != d[j] by {
                if j == d.len() - 1 {
                    assert(d0.contains(d0[i]));
                    assert(t.take(m as int).contains(d0[i]));
                    let k = choose|k: int| 0 <= k < m && t.take(m as int)[k] == d0[i];
                    assert(t[k] == d0[i]);
                    assert(triple_order()(t[k], t[n - 1]));
                    if m > 0 {
                        assert(d0.last() == t[m - 1]);
                        assert(triple_order()(t[m - 1], t[n - 1]));
                        if i < d0.len() - 1 {
                            assert(triple_leq(d0[i], d0[d0.len() - 1]) && d0[i] != d0[d0.len()
                                - 1]);
                        }
                        if k < m - 1 {
                            assert(triple_order()(t[k], t[m - 1]));
                        }
                    }
                } else {
                    assert(d[i] == d0[i] && d[j] == d0[j]);
                }
            }
        }
    }
}

/// Reads bitmap triples from the start of `bytes`: the bits of Y, the bits
/// of Z, the array Y and the array Z, each accepted by its own reader.
pub open spec fn read_bitmap_triples(bytes: Seq<u8>) -> Option<Framed<BitmapTriplesView>> {
    match read_bitmap(bytes) {
        Some(by) => match read_bitmap(bytes.skip(by.len as int)) {
            Some(bz) => match read_u32_array(bytes.skip((by.len + bz.len) as int)) {
                Some(y) => match read_u32_array(bytes.skip((by.len + bz.len + y.len) as int)) {
                    Some(z) => Some(
                        Framed {
                            content: BitmapTriplesView {
                                y: y.content,
                                z: z.content,
                                by: by.content,
                                bz: bz.content,
                            },
                            len: by.len + bz.len + y.len + z.len,
                        },
                    ),
                    None => None,
                },
                None => None,
            },
            None => None,
        },
        None => None,
    }
}

/// Stored bitmap triples validate and read back: every checksum holds, what
/// is read is what was stored, and reading stops where the last array ends,
/// whatever follows it.
#[verifier::rlimit(30)]
pub proof fn lemma_bitmap_triples_read_back(b: BitmapTriplesView, rest: Seq<u8>)
    ensures
        read_bitmap_triples(bitmap_triples_sections(b) + rest) == Some(
            Framed { content: b, len: bitmap_triples_sections(b).len() },
        ),
{
    let bits_y = bitmap_section(b.by);
    let bits_z = bitmap_section(b.bz);
    let array_y = u32_array_section(b.y);
    let array_z = u32_array_section(b.z);
    let bytes = bitmap_triples_sections(b) + rest;
    assert(bytes =~= bits_y + (bits_z + array_y + array_z + rest));
    lemma_bitmap_reads_back(b.by, bits_z + array_y + array_z + rest);
    assert(bytes.skip(bits_y.len() as int) =~= bits_z + (array_y + array_z + rest));
    lemma_bitmap_reads_back(b.bz, array_y + array_z + rest);
    assert(bytes.skip((bits_y.len() + bits_z.len()) as int) =~= array_y + (array_z + rest));
    lemma_u32_array_reads_back(b.y, array_z + rest);
    assert(bytes.skip((bits_y.len() + bits_z.len() + array_y.len()) as int) =~= array_z + rest);
    lemma_u32_array_reads_back(b.z, rest);
}

/// Whether `a` comes before `b` in the order of triples, or is `b`.
pub fn triple_le(a: TripleId, b: TripleId) -> (le: bool)
    ensures
        le == triple_leq(a, b),
{
    a.0 < b.0 || (a.0 == b.0 && (a.1 < b.1 || (a.1 == b.1 && a.2 <= b.2)))
}

/// Merges two sorted lists into one sorted list of the triples of both.
fn merge_triples(left: &Vec<TripleId>, right: &Vec<TripleId>) -> (merged: Vec<TripleId>)
    requires
        sorted_by(left@, triple_order()),
        sorted_by(right@, triple_order()),
    ensures
        sorted_by(merged@, triple_order()),
        merged@.to_multiset() == left@.to_multiset().add(right@.to_multiset()),
{
    broadcast use group_multiset_axioms;

    let mut merged: Vec<TripleId> = Vec::new();
    let mut i: usize = 0;
    let mut j: usize = 0;
    proof {
        assert(left@.take(0) =~= Seq::<TripleId>::empty());
        assert(right@.take(0) =~= Seq::<TripleId>::empty());
        let none = Seq::<TripleId>::empty();
        assert(merged@ =~= none + none);
        lemma_multiset_commutative(none, none);
        assert(merged@.to_multiset() =~= left@.take(0).to_multiset().add(
            right@.take(0).to_multiset(),
        ));
    }
    while i < left.len() || j < right.len()
        invariant
            i <= left@.len(),
            j <= right@.len(),
            sorted_by(left@, triple_order()),
            sorted_by(right@, triple_order()),
            sorted_by(merged@, triple_order()),
            merged@.to_multiset() == left@.take(i as int).to_multiset().add(
                right@.take(j as int).to_multiset(),
            ),
            forall|k: int|
                0 <= k < merged@.len() && i < left@.len() ==> triple_leq(
                    #[trigger] merged@[k],
                    left@[i as int],
                ),
            forall|k: int|
                0 <= k < merged@.len() && j < right@.len() ==> triple_leq(
                    #[trigger] merged@[k],
                    right@[j as int],
                ),
        decreases left@.len() - i + right@.len() - j,
    {
        let from_left = if j >= right.len() {
            true
        } else if i >= left.len() {
            false
        } else {
            triple_le(left[i], right[j])
        };
        let ghost before = merged@;
        if from_left {
            let next = left[i];
            merged.push(next);
            proof {
                assert(left@.take(i + 1) =~= left@.take(i as int).push(next));
                to_multiset_build(before, next);
                to_multiset_build(left@.take(i as int), next);
                assert(merged@.to_multiset() =~= left@.take(i + 1).to_multiset().add(
                    right@.take(j as int).to_multiset(),
                ));
                assert forall|a: int, b: int| 0 <= a < b < merged@.len() implies triple_order()(
                    merged@[a],
                    merged@[b],
                ) by {
                    if b < before.len() {
                        assert(triple_order()(before[a], before[b]));
                    } else {
                        assert(triple_leq(before[a], next));
                    }
                }
                if i + 1 < left@.len() {
                    assert(triple_order()(left@[i as int], left@[i + 1]));
                }
            }
            i += 1;
        } else {
            let next = right[j];
            merged.push(next);
            proof {
                assert(right@.take(j + 1) =~= right@.take(j as int).push(next));
                to_multiset_build(before, next);
                to_multiset_build(right@.take(j as int), next);
                assert(merged@.to_multiset() =~= left@.take(i as int).to_multiset().add(
                    right@.take(j + 1).to_multiset(),
                ));
                assert forall|a: int, b: int| 0 <= a < b < merged@.len() implies triple_order()(
                    merged@[a],
                    merged@[b],
                ) by {
                    if b < before.len() {
                        assert(triple_order()(before[a], before[b]));
                    } else {
                        assert(triple_leq(before[a], next));
                    }
                }
                if j + 1 < right@.len() {
                    assert(triple_order()(right@[j as int], right@[j + 1]));
                }
            }
            j += 1;
        }
    }
    proof {
        assert(left@.take(i as int) =~= left@);
        assert(right@.take(j as int) =~= right@);
    }
    merged
}

/// Sorts the triples by subject, predicate and object: the result holds the
/// triples of the list, each as often as the list, in the order of triples.
pub fn sort_triples(triples: Vec<TripleId>) -> (sorted: Vec<TripleId>)
    ensures
        sorted@ == triples@.sort_by(triple_order()),
        sorted_by(sorted@, triple_order()),
        sorted@.to_multiset() == triples@.to_multiset(),
    decreases triples@.len(),
{
    let ghost all = triples@;
    proof {
        lemma_triple_order_total();
        all.lemma_sort_by_ensures(triple_order());
    }
    if triples.len() <= 1 {
        proof {
            lemma_sorted_unique(all, all.sort_by(triple_order()), triple_order());
        }
        return triples;
    }
    let mut first = triples;
    let middle = first.len() / 2;
    let second = first.split_off(middle);
    proof {
        assert(all =~= first@ + second@);
        lemma_multiset_commutative(first@, second@);
    }
    let left = sort_triples(first);
    let right = sort_triples(second);
    let sorted = merge_triples(&left, &right);
    proof {
        lemma_sorted_unique(sorted@, all.sort_by(triple_order()), triple_order());
    }
    sorted
}

/// Bitmap triples, ready to be stored.
pub struct BitmapTriples {
    y: Vec<u32>,
    z: Vec<u32>,
    by: Vec<bool>,
    bz: Vec<bool>,
}

impl View for BitmapTriples {
    type V = BitmapTriplesView;

    closed spec fn view(&self) -> BitmapTriplesView {
        BitmapTriplesView { y: self.y@, z: self.z@, by: self.by@, bz: self.bz@ }
    }
}

impl BitmapTriples {
    /// Encodes a list of triples that is already in order. Repeated triples
    /// count once. The list is encoded if and only if it breaks no rule of
    /// the encoder; the error names the first triple that breaks one.
    pub fn from_sorted(triples: &Vec<TripleId>) -> (result: Result<
        BitmapTriples,
        EncoderInvariantViolation,
    >)
        ensures
            match result {
                Ok(encoded) => encodable(triples@) && encoded@ == bitmap_triples(triples@),
                Err(e) => e.index < triples@.len() && valid_upto(triples@, e.index as int)
                    && violation_at(triples@, e.index as int) == Some(e.kind),
            },
    {
        let ghost t = triples@;
        let n = triples.len();
        let mut y: Vec<u32> = Vec::new();
        let mut z: Vec<u32> = Vec::new();
        let mut by: Vec<bool> = Vec::new();
        let mut bz: Vec<bool> = Vec::new();
        let mut i: usize = 0;
        while i < n
            invariant
                t == triples@,
                n == t.len(),
                i <= n,
                valid_upto(t, i as int),
                y@ == y_upto(t, i as nat),
                z@ == z_upto(t, i as nat),
                by@ == by_upto(t, i as nat),
                bz@ == bz_upto(t, i as nat),
            decreases n - i,
        {
            let (s, p, o) = triples[i];
            if s == 0 || p == 0 || o == 0 {
                return Err(EncoderInvariantViolation { index: i, kind: Violation::ZeroId });
            }
            if i == 0 {
                if s != 1 {
                    return Err(EncoderInvariantViolation { index: i, kind: Violation::SubjectJump });
                }
                y.push(p);
                z.push(o);
            } else {
                let (last_s, last_p, last_o) = triples[i - 1];
                if s != last_s {
                    if s < last_s || s - last_s != 1 {
                        return Err(
                            EncoderInvariantViolation { index: i, kind: Violation::SubjectJump },
                        );
                    }
                    by.push(true);
                    y.push(p);
                    bz.push(true);
                    z.push(o);
                } else if p != last_p {
                    if p < last_p {
                        return Err(
                            EncoderInvariantViolation {
                                index: i,
                                kind: Violation::PredicateRegression,
                            },
                        );
                    }
                    by.push(false);
                    y.push(p);
                    bz.push(true);
                    z.push(o);
                } else if o != last_o {
                    if o < last_o {
                        return Err(
                            EncoderInvariantViolation {
                                index: i,
                                kind: Violation::ObjectRegression,
                            },
                        );
                    }
                    bz.push(false);
                    z.push(o);
                }
            }
            assert(violation_at(t, i as int) is None);
            i += 1;
        }
        by.push(true);
        bz.push(true);
        Ok(BitmapTriples { y, z, by, bz })
    }

    /// Sorts the triples by subject, predicate and object and encodes them.
    /// The result is that of `from_sorted` on the sorted list.
    pub fn new(triples: Vec<TripleId>) -> (result: Result<BitmapTriples, EncoderInvariantViolation>)
        ensures
            ({
                let sorted = triples@.sort_by(triple_order());
                match result {
                    Ok(encoded) => encodable(sorted) && encoded@ == bitmap_triples(sorted),
                    Err(e) => e.index < sorted.len() && valid_upto(sorted, e.index as int)
                        && violation_at(sorted, e.index as int) == Some(e.kind),
                }
            }),
    {
        let sorted = sort_triples(triples);
        BitmapTriples::from_sorted(&sorted)
    }

    /// The array Y.
    pub fn y(&self) -> (y: &Vec<u32>)
        ensures
            y@ == self@.y,
    {
        &self.y
    }

    /// The array Z.
    pub fn z(&self) -> (z: &Vec<u32>)
        ensures
            z@ == self@.z,
    {
        &self.z
    }

    /// The bits of Y.
    pub fn by(&self) -> (by: &Vec<bool>)
        ensures
            by@ == self@.by,
    {
        &self.by
    }

    /// The bits of Z.
    pub fn bz(&self) -> (bz: &Vec<bool>)
        ensures
            bz@ == self@.bz,
    {
        &self.bz
    }

    /// The number of triples that are encoded.
    pub fn num_triples(&self) -> (n: usize)
        ensures
            n == self@.z.len(),
    {
        self.z.len()
    }

    /// Appends the serialized form to `dest`: the bits of Y, the bits of Z,
    /// the array Y, the array Z.
    pub fn save(&self, dest: &mut Vec<u8>)
        ensures
            final(dest)@ == old(dest)@ + bitmap_triples_sections(self@),
    {
        save_bitmap(&self.by, dest);
        save_bitmap(&self.bz, dest);
        save_u32_vec(&self.y, dest);
        save_u32_vec(&self.z, dest);
        assert(dest@ =~= old(dest)@ + bitmap_triples_sections(self@));
    }
}

} // verus!
