//! Sorted sets of dictionary terms.

use crate::text::{compare_terms, lemma_term_order_total, lemma_term_order_transitive, term_lt, TermOrder};
use vstd::prelude::*;
use vstd::utf8::encode_utf8;

verus! {

/// The terms that a list of strings holds, each as its characters.
pub open spec fn term_views(terms: Seq<String>) -> Seq<Seq<char>> {
    terms.map_values(|s: String| s@)
}

/// Every term comes before all that follow it: the list is sorted and holds
/// no term twice.
pub open spec fn strictly_ascending(terms: Seq<Seq<char>>) -> bool {
    forall|i: int, j: int| 0 <= i < j < terms.len() ==> term_lt(#[trigger] terms[i], #[trigger] terms[j])
}

/// A strictly ascending list holds each of its terms at one place only.
pub proof fn lemma_strictly_ascending_distinct(terms: Seq<Seq<char>>, i: int, j: int)
    requires
        strictly_ascending(terms),
        0 <= i < terms.len(),
        0 <= j < terms.len(),
        terms[i] == terms[j],
    ensures
        i == j,
{
    if i < j {
        lemma_term_order_total(terms[i], terms[j]);
    } else if j < i {
        lemma_term_order_total(terms[j], terms[i]);
    }
}

/// `t` is one of the first `n` terms of `terms`.
pub open spec fn occurs_before(terms: Seq<Seq<char>>, n: int, t: Seq<char>) -> bool {
    exists|m: int| 0 <= m < n && m < terms.len() && terms[m] == t
}

/// The number of bytes that the first `n` terms take in UTF-8.
pub open spec fn terms_size_upto(terms: Seq<Seq<char>>, n: nat) -> nat
    decreases n,
{
    if n == 0 {
        0
    } else {
        terms_size_upto(terms, (n - 1) as nat) + encode_utf8(terms[n - 1]).len()
    }
}

/// The number of bytes that the terms take in UTF-8.
pub open spec fn terms_size(terms: Seq<Seq<char>>) -> nat {
    terms_size_upto(terms, terms.len())
}

/// `x` may stand before `y` in a list that rises, or in one that falls: it
/// is not after `y` in the order of terms, or not before it.
pub open spec fn in_order(rising: bool, x: Seq<char>, y: Seq<char>) -> bool {
    if rising {
        !term_lt(y, x)
    } else {
        !term_lt(x, y)
    }
}

/// The list rises, or falls, all the way: every two of its terms stand in
/// that order.
pub open spec fn directed(terms: Seq<Seq<char>>, rising: bool) -> bool {
    forall|i: int, j: int|
        0 <= i < j < terms.len() ==> in_order(rising, #[trigger] terms[i], #[trigger] terms[j])
}

/// Standing in order carries over from one pair of terms to the next.
pub proof fn lemma_in_order_transitive(rising: bool, x: Seq<char>, y: Seq<char>, z: Seq<char>)
    requires
        in_order(rising, x, y),
        in_order(rising, y, z),
    ensures
        in_order(rising, x, z),
{
    lemma_term_order_total(x, y);
    lemma_term_order_total(y, z);
    if rising {
        if term_lt(z, x) {
            if term_lt(x, y) {
                lemma_term_order_transitive(z, x, y);
            }
        }
    } else {
        if term_lt(x, z) {
            if term_lt(y, x) {
                lemma_term_order_transitive(y, x, z);
            }
        }
    }
}

/// Merges two lists that fall into one that rises, or two that rise into
/// one that falls, by taking the terms from their ends. The result holds
/// the terms of both.
fn merge_terms(left: Vec<String>, right: Vec<String>, rising: bool) -> (merged: Vec<String>)
    requires
        directed(term_views(left@), !rising),
        directed(term_views(right@), !rising),
    ensures
        directed(term_views(merged@), rising),
        forall|t: Seq<char>|
            term_views(merged@).contains(t) <==> term_views(left@).contains(t) || term_views(
                right@,
            ).contains(t),
{
    let ghost first = term_views(left@);
    let ghost second = term_views(right@);
    let mut left = left;
    let mut right = right;
    let mut merged: Vec<String> = Vec::new();
    while left.len() > 0 || right.len() > 0
        invariant
            directed(first, !rising),
            directed(second, !rising),
            left@.len() <= first.len(),
            right@.len() <= second.len(),
            term_views(left@) == first.take(left@.len() as int),
            term_views(right@) == second.take(right@.len() as int),
            directed(term_views(merged@), rising),
            forall|k: int, m: int|
                0 <= k < merged@.len() && 0 <= m < left@.len() ==> in_order(
                    rising,
                    #[trigger] term_views(merged@)[k],
                    #[trigger] first[m],
                ),
            forall|k: int, m: int|
                0 <= k < merged@.len() && 0 <= m < right@.len() ==> in_order(
                    rising,
                    #[trigger] term_views(merged@)[k],
                    #[trigger] second[m],
                ),
            forall|k: int|
                0 <= k < merged@.len() ==> first.contains(#[trigger] term_views(merged@)[k])
                    || second.contains(term_views(merged@)[k]),
            forall|m: int|
                left@.len() <= m < first.len() ==> term_views(merged@).contains(#[trigger] first[m]),
            forall|m: int|
                right@.len() <= m < second.len() ==> term_views(merged@).contains(
                    #[trigger] second[m],
                ),
        decreases left@.len() + right@.len(),
    {
        let ghost before = term_views(merged@);
        let ghost i = left@.len() as int;
        let ghost j = right@.len() as int;
        let from_left = if right.len() == 0 {
            true
        } else if left.len() == 0 {
            false
        } else {
            let order = compare_terms(
                left[left.len() - 1].as_str(),
                right[right.len() - 1].as_str(),
            );
            assert(term_views(left@)[i - 1] == first[i - 1]);
            assert(term_views(right@)[j - 1] == second[j - 1]);
            proof {
                lemma_term_order_total(first[i - 1], second[j - 1]);
            }
            if rising {
                order != TermOrder::Greater
            } else {
                order != TermOrder::Less
            }
        };
        if from_left {
            assert(term_views(left@)[i - 1] == first[i - 1]);
            let next = left.pop().unwrap();
            let ghost x = next@;
            merged.push(next);
            proof {
                let after = term_views(merged@);
                assert(after =~= before.push(x));
                assert(term_views(left@) =~= first.take(i - 1));
                assert(first.contains(x));
                assert forall|a: int, b: int| 0 <= a < b < after.len() implies in_order(
                    rising,
                    #[trigger] after[a],
                    #[trigger] after[b],
                ) by {
                    if b < before.len() {
                        assert(after[a] == before[a] && after[b] == before[b]);
                    } else {
                        assert(after[a] == before[a]);
                    }
                }
                assert forall|k: int, m: int|
                    0 <= k < after.len() && 0 <= m < i - 1 implies in_order(
                    rising,
                    #[trigger] after[k],
                    #[trigger] first[m],
                ) by {
                    if k < before.len() {
                        assert(after[k] == before[k]);
                    } else {
                        assert(in_order(!rising, first[m], first[i - 1]));
                    }
                }
                assert forall|k: int, m: int| 0 <= k < after.len() && 0 <= m < j implies in_order(
                    rising,
                    #[trigger] after[k],
                    #[trigger] second[m],
                ) by {
                    if k < before.len() {
                        assert(after[k] == before[k]);
                    } else {
                        if m < j - 1 {
                            assert(in_order(!rising, second[m], second[j - 1]));
                        }
                        lemma_in_order_transitive(rising, x, second[j - 1], second[m]);
                    }
                }
                assert forall|k: int| 0 <= k < after.len() implies first.contains(
                    #[trigger] after[k],
                ) || second.contains(after[k]) by {
                    if k < before.len() {
                        assert(after[k] == before[k]);
                    }
                }
                assert forall|m: int| i - 1 <= m < first.len() implies after.contains(
                    #[trigger] first[m],
                ) by {
                    if m >= i {
                        let k = choose|k: int| 0 <= k < before.len() && before[k] == first[m];
                        assert(after[k] == first[m]);
                    } else {
                        assert(after[after.len() - 1] == first[m]);
                    }
                }
                assert forall|m: int| j <= m < second.len() implies after.contains(
                    #[trigger] second[m],
                ) by {
                    let k = choose|k: int| 0 <= k < before.len() && before[k] == second[m];
                    assert(after[k] == second[m]);
                }
            }
        } else {
            assert(term_views(right@)[j - 1] == second[j - 1]);
            let next = right.pop().unwrap();
            let ghost x = next@;
            merged.push(next);
            proof {
                let after = term_views(merged@);
                assert(after =~= before.push(x));
                assert(term_views(right@) =~= second.take(j - 1));
                assert(second.contains(x));
                assert forall|a: int, b: int| 0 <= a < b < after.len() implies in_order(
                    rising,
                    #[trigger] after[a],
                    #[trigger] after[b],
                ) by {
                    if b < before.len() {
                        assert(after[a] == before[a] && after[b] == before[b]);
                    } else {
                        assert(after[a] == before[a]);
                    }
                }
                assert forall|k: int, m: int|
                    0 <= k < after.len() && 0 <= m < j - 1 implies in_order(
                    rising,
                    #[trigger] after[k],
                    #[trigger] second[m],
                ) by {
                    if k < before.len() {
                        assert(after[k] == before[k]);
                    } else {
                        assert(in_order(!rising, second[m], second[j - 1]));
                    }
                }
                assert forall|k: int, m: int| 0 <= k < after.len() && 0 <= m < i implies in_order(
                    rising,
                    #[trigger] after[k],
                    #[trigger] first[m],
                ) by {
                    if k < before.len() {
                        assert(after[k] == before[k]);
                    } else {
                        if m < i - 1 {
                            assert(in_order(!rising, first[m], first[i - 1]));
                        }
                        lemma_in_order_transitive(rising, x, first[i - 1], first[m]);
                    }
                }
                assert forall|k: int| 0 <= k < after.len() implies first.contains(
                    #[trigger] after[k],
                ) || second.contains(after[k]) by {
                    if k < before.len() {
                        assert(after[k] == before[k]);
                    }
                }
                assert forall|m: int| j - 1 <= m < second.len() implies after.contains(
                    #[trigger] second[m],
                ) by {
                    if m >= j {
                        let k = choose|k: int| 0 <= k < before.len() && before[k] == second[m];
                        assert(after[k] == second[m]);
                    } else {
                        assert(after[after.len() - 1] == second[m]);
                    }
                }
                assert forall|m: int| i <= m < first.len() implies after.contains(
                    #[trigger] first[m],
                ) by {
                    let k = choose|k: int| 0 <= k < before.len() && before[k] == first[m];
                    assert(after[k] == first[m]);
                }
            }
        }
    }
    proof {
        let all = term_views(merged@);
        assert forall|t: Seq<char>| all.contains(t) <==> first.contains(t) || second.contains(
            t,
        ) by {
            if all.contains(t) {
                let k = choose|k: int| 0 <= k < all.len() && all[k] == t;
                assert(first.contains(all[k]) || second.contains(all[k]));
            }
            if first.contains(t) {
                let m = choose|m: int| 0 <= m < first.len() && first[m] == t;
                assert(all.contains(first[m]));
            }
            if second.contains(t) {
                let m = choose|m: int| 0 <= m < second.len() && second[m] == t;
                assert(all.contains(second[m]));
            }
        }
    }
    merged
}

/// Sorts the strings in the order of terms, rising or falling, by merging
/// the sorted halves. The result holds the terms that were given.
fn sort_terms(terms: Vec<String>, rising: bool) -> (sorted: Vec<String>)
    ensures
        directed(term_views(sorted@), rising),
        forall|t: Seq<char>| term_views(sorted@).contains(t) <==> term_views(terms@).contains(t),
    decreases terms@.len(),
{
    if terms.len() <= 1 {
        return terms;
    }
    let ghost all = term_views(terms@);
    let mut first = terms;
    let middle = first.len() / 2;
    let second = first.split_off(middle);
    let ghost front = term_views(first@);
    let ghost back = term_views(second@);
    proof {
        assert(all =~= front + back);
    }
    let left = sort_terms(first, !rising);
    let right = sort_terms(second, !rising);
    let sorted = merge_terms(left, right, rising);
    proof {
        assert forall|t: Seq<char>| term_views(sorted@).contains(t) <==> all.contains(t) by {
            if front.contains(t) {
                let k = choose|k: int| 0 <= k < front.len() && front[k] == t;
                assert(all[k] == t);
            }
            if back.contains(t) {
                let k = choose|k: int| 0 <= k < back.len() && back[k] == t;
                assert(all[front.len() + k] == t);
            }
            if all.contains(t) {
                let k = choose|k: int| 0 <= k < all.len() && all[k] == t;
                if k < front.len() {
                    assert(front[k] == t);
                } else {
                    assert(back[k - front.len()] == t);
                }
            }
        }
    }
    sorted
}

/// A set of terms, kept in the order of terms.
pub struct TermSet {
    terms: Vec<String>,
}

impl View for TermSet {
    type V = Seq<Seq<char>>;

    closed spec fn view(&self) -> Seq<Seq<char>> {
        term_views(self.terms@)
    }
}

impl TermSet {
    #[verifier::type_invariant]
    spec fn sorted(self) -> bool {
        strictly_ascending(term_views(self.terms@))
    }

    /// The set without terms.
    pub fn new() -> (set: TermSet)
        ensures
            set@.len() == 0,
    {
        TermSet { terms: Vec::new() }
    }

    /// The set of the terms that `terms` holds: sorted, each term once.
    pub fn from_terms(terms: Vec<String>) -> (set: TermSet)
        ensures
            strictly_ascending(set@),
            forall|t: Seq<char>| set@.contains(t) <==> term_views(terms@).contains(t),
    {
        let ghost given = term_views(terms@);
        let sorted = sort_terms(terms, true);
        let ghost all = term_views(sorted@);
        let mut unique: Vec<String> = Vec::new();
        for term in it: sorted
            invariant
                it.seq() == sorted@,
                all == term_views(sorted@),
                directed(all, true),
                strictly_ascending(term_views(unique@)),
                it.index() > 0 ==> unique.len() > 0 && unique@.last()@ == all[it.index() - 1],
                forall|m: int| 0 <= m < it.index() ==> term_views(unique@).contains(all[m]),
                forall|k: int|
                    0 <= k < unique.len() ==> occurs_before(all, it.index() as int, #[trigger] unique@[k]@),
        {
            let ghost before = term_views(unique@);
            let ghost at = it.index() as int;
            assert(term@ == all[at]);
            let fresh = if unique.len() == 0 {
                true
            } else {
                !(unique[unique.len() - 1] == term)
            };
            if fresh {
                unique.push(term);
                proof {
                    let after = term_views(unique@);
                    assert(after =~= before.push(all[at]));
                    assert forall|i: int, j: int| 0 <= i < j < after.len() implies term_lt(
                        after[i],
                        after[j],
                    ) by {
                        if j == after.len() - 1 {
                            assert(occurs_before(all, at, unique@[i]@));
                            let m = choose|m: int| 0 <= m < at && all[m] == unique@[i]@;
                            assert(!term_lt(all[at], all[m]));
                            lemma_term_order_total(after[i], all[at]);
                            if after[i] == all[at] {
                                let last = before.len() - 1;
                                assert(before[last] == all[at - 1]);
                                assert(!term_lt(all[at], all[at - 1]));
                                if i < last {
                                    assert(term_lt(before[i], before[last]));
                                    lemma_term_order_total(before[i], before[last]);
                                }
                            }
                        } else {
                            assert(after[i] == before[i] && after[j] == before[j]);
                        }
                    }
                    assert forall|m: int| 0 <= m < at + 1 implies after.contains(all[m]) by {
                        if m < at {
                            let k = choose|k: int| 0 <= k < before.len() && before[k] == all[m];
                            assert(after[k] == all[m]);
                        } else {
                            assert(after[after.len() - 1] == all[m]);
                        }
                    }
                    assert forall|k: int| 0 <= k < unique.len() implies occurs_before(
                        all,
                        at + 1,
                        #[trigger] unique@[k]@,
                    ) by {
                        if k < before.len() {
                            assert(unique@[k]@ == before[k]);
                            assert(occurs_before(all, at, before[k]));
                            let m = choose|m: int| 0 <= m < at && all[m] == before[k];
                            assert(0 <= m < at + 1 && all[m] == unique@[k]@);
                        } else {
                            assert(all[at] == unique@[k]@);
                        }
                    }
                }
            } else {
                proof {
                    assert(before.last() == all[at]);
                    assert forall|m: int| 0 <= m < at + 1 implies before.contains(all[m]) by {
                        if m == at {
                            assert(before[before.len() - 1] == all[m]);
                        }
                    }
                    assert forall|k: int| 0 <= k < unique.len() implies occurs_before(
                        all,
                        at + 1,
                        #[trigger] unique@[k]@,
                    ) by {
                        assert(occurs_before(all, at, unique@[k]@));
                        let m = choose|m: int| 0 <= m < at && all[m] == unique@[k]@;
                        assert(0 <= m < at + 1 && all[m] == unique@[k]@);
                    }
                }
            }
        }
        let set = TermSet { terms: unique };
        proof {
            assert forall|t: Seq<char>| set@.contains(t) <==> given.contains(t) by {
                if set@.contains(t) {
                    let k = choose|k: int| 0 <= k < set@.len() && set@[k] == t;
                    assert(occurs_before(all, all.len() as int, unique@[k]@));
                    let m = choose|m: int| 0 <= m < all.len() && all[m] == unique@[k]@;
                    assert(all.contains(t));
                }
                if given.contains(t) {
                    assert(all.contains(t));
                    let m = choose|m: int| 0 <= m < all.len() && all[m] == t;
                    assert(set@.contains(all[m]));
                }
            }
        }
        set
    }

    /// The number of terms in the set.
    pub fn len(&self) -> (n: usize)
        ensures
            n == self@.len(),
            strictly_ascending(self@),
    {
        proof {
            use_type_invariant(self);
        }
        self.terms.len()
    }

    /// The number of bytes that the terms of the set take in UTF-8.
    pub fn size_in_bytes(&self) -> (size: u128)
        ensures
            size == terms_size(self@),
            size <= self@.len() * 0x1_0000_0000_0000_0000,
    {
        let ghost all = self@;
        let n = self.terms.len();
        let mut size: u128 = 0;
        let mut i: usize = 0;
        while i < n
            invariant
                all == term_views(self.terms@),
                n == all.len(),
                i <= n,
                size == terms_size_upto(all, i as nat),
                size <= i * 0x1_0000_0000_0000_0000,
            decreases n - i,
        {
            let len = self.terms[i].as_str().as_bytes().len();
            assert(self.terms@[i as int]@ == all[i as int]);
            assert((i + 1) * 0x1_0000_0000_0000_0000 <= 0x1_0000_0000_0000_0000
                * 0x1_0000_0000_0000_0000) by (nonlinear_arith)
                requires
                    i + 1 <= 0x1_0000_0000_0000_0000,
            ;
            assert((i + 1) * 0x1_0000_0000_0000_0000 == i * 0x1_0000_0000_0000_0000
                + 0x1_0000_0000_0000_0000) by (nonlinear_arith);
            size = size + len as u128;
            i += 1;
        }
        size
    }

    /// The term at place `i`, counted from zero in the order of terms.
    pub fn term(&self, i: usize) -> (t: &String)
        requires
            i < self@.len(),
        ensures
            t@ == self@[i as int],
    {
        &self.terms[i]
    }

    /// The place of `term` in the set, counted from zero, if the set holds
    /// it.
    pub fn position(&self, term: &str) -> (place: Option<usize>)
        ensures
            strictly_ascending(self@),
            match place {
                Some(i) => i < self@.len() && self@[i as int] == term@,
                None => !self@.contains(term@),
            },
    {
        proof {
            use_type_invariant(self);
        }
        let ghost all = self@;
        let mut low: usize = 0;
        let mut high: usize = self.terms.len();
        while low < high
            invariant
                all == term_views(self.terms@),
                strictly_ascending(all),
                low <= high <= all.len(),
                forall|i: int| 0 <= i < low ==> term_lt(all[i], term@),
                forall|i: int| high <= i < all.len() ==> term_lt(term@, all[i]),
            decreases high - low,
        {
            let mid: usize = low + (high - low) / 2;
            let found = compare_terms(self.terms[mid].as_str(), term);
            assert(self.terms@[mid as int]@ == all[mid as int]);
            match found {
                TermOrder::Equal => {
                    return Some(mid);
                },
                TermOrder::Less => {
                    proof {
                        assert forall|i: int| 0 <= i < mid + 1 implies term_lt(all[i], term@) by {
                            if i < mid {
                                lemma_term_order_transitive(all[i], all[mid as int], term@);
                            }
                        }
                    }
                    low = mid + 1;
                },
                TermOrder::Greater => {
                    proof {
                        lemma_term_order_total(all[mid as int], term@);
                        assert forall|i: int| mid <= i < all.len() implies term_lt(
                            term@,
                            all[i],
                        ) by {
                            if i > mid {
                                lemma_term_order_transitive(term@, all[mid as int], all[i]);
                            }
                        }
                    }
                    high = mid;
                },
            }
        }
        proof {
            assert forall|i: int| 0 <= i < all.len() implies all[i] != term@ by {
                lemma_term_order_total(all[i], term@);
            }
        }
        None
    }

    /// The terms of this set that `other` holds, where `held` is true, or
    /// that `other` does not hold, where it is false.
    fn select(&self, other: &TermSet, held: bool) -> (set: TermSet)
        ensures
            strictly_ascending(set@),
            forall|t: Seq<char>|
                set@.contains(t) <==> (self@.contains(t) && other@.contains(t) == held),
    {
        proof {
            use_type_invariant(self);
        }
        let ghost all = self@;
        let n = self.terms.len();
        let mut chosen: Vec<String> = Vec::new();
        let mut i: usize = 0;
        while i < n
            invariant
                all == term_views(self.terms@),
                strictly_ascending(all),
                n == all.len(),
                i <= n,
                strictly_ascending(term_views(chosen@)),
                forall|k: int|
                    0 <= k < chosen.len() ==> occurs_before(all, i as int, #[trigger] chosen@[k]@)
                        && other@.contains(chosen@[k]@) == held,
                forall|m: int|
                    0 <= m < i && other@.contains(#[trigger] all[m]) == held ==> term_views(
                        chosen@,
                    ).contains(all[m]),
            decreases n - i,
        {
            let ghost before = term_views(chosen@);
            let ghost picked = chosen@;
            assert(self.terms@[i as int]@ == all[i as int]);
            let take = other.contains(self.terms[i].as_str()) == held;
            if take {
                chosen.push(self.terms[i].clone());
                proof {
                    let after = term_views(chosen@);
                    assert(after =~= before.push(all[i as int]));
                    assert forall|a: int, b: int| 0 <= a < b < after.len() implies term_lt(
                        after[a],
                        after[b],
                    ) by {
                        if b == after.len() - 1 {
                            assert(occurs_before(all, i as int, picked[a]@));
                            let m = choose|m: int| 0 <= m < i && m < all.len() && all[m] == picked[a]@;
                            assert(term_lt(all[m], all[i as int]));
                        } else {
                            assert(after[a] == before[a] && after[b] == before[b]);
                        }
                    }
                    assert forall|k: int| 0 <= k < chosen.len() implies occurs_before(
                        all,
                        i + 1,
                        #[trigger] chosen@[k]@,
                    ) && other@.contains(chosen@[k]@) == held by {
                        if k < picked.len() {
                            assert(chosen@[k] == picked[k]);
                            assert(occurs_before(all, i as int, picked[k]@));
                            let m = choose|m: int| 0 <= m < i && m < all.len() && all[m] == picked[k]@;
                            assert(0 <= m < i + 1 && m < all.len() && all[m] == chosen@[k]@);
                        } else {
                            assert(all[i as int] == chosen@[k]@);
                        }
                    }
                    assert forall|m: int|
                        0 <= m < i + 1 && other@.contains(#[trigger] all[m]) == held implies after.contains(
                        all[m],
                    ) by {
                        if m < i {
                            assert(before.contains(all[m]));
                            let k = choose|k: int| 0 <= k < before.len() && before[k] == all[m];
                            assert(after[k] == all[m]);
                        } else {
                            assert(after[after.len() - 1] == all[m]);
                        }
                    }
                }
            } else {
                proof {
                    assert forall|k: int| 0 <= k < chosen.len() implies occurs_before(
                        all,
                        i + 1,
                        #[trigger] chosen@[k]@,
                    ) && other@.contains(chosen@[k]@) == held by {
                        assert(occurs_before(all, i as int, chosen@[k]@));
                        let m = choose|m: int| 0 <= m < i && m < all.len() && all[m] == chosen@[k]@;
                        assert(0 <= m < i + 1 && m < all.len() && all[m] == chosen@[k]@);
                    }
                }
            }
            i += 1;
        }
        let set = TermSet { terms: chosen };
        proof {
            assert forall|t: Seq<char>|
                set@.contains(t) <==> (self@.contains(t) && other@.contains(t) == held) by {
                if set@.contains(t) {
                    let k = choose|k: int| 0 <= k < set@.len() && set@[k] == t;
                    assert(occurs_before(all, n as int, chosen@[k]@));
                    let m = choose|m: int| 0 <= m < n && m < all.len() && all[m] == chosen@[k]@;
                    assert(all[m] == t);
                }
                if self@.contains(t) && other@.contains(t) == held {
                    let m = choose|m: int| 0 <= m < all.len() && all[m] == t;
                    assert(set@.contains(all[m]));
                }
            }
        }
        set
    }

    /// The terms that both sets hold.
    pub fn intersection(&self, other: &TermSet) -> (set: TermSet)
        ensures
            strictly_ascending(set@),
            forall|t: Seq<char>| set@.contains(t) <==> (self@.contains(t) && other@.contains(t)),
    {
        self.select(other, true)
    }

    /// The terms of this set that `other` does not hold.
    pub fn difference(&self, other: &TermSet) -> (set: TermSet)
        ensures
            strictly_ascending(set@),
            forall|t: Seq<char>| set@.contains(t) <==> (self@.contains(t) && !other@.contains(t)),
    {
        self.select(other, false)
    }

    /// Whether the set holds `term`.
    pub fn contains(&self, term: &str) -> (held: bool)
        ensures
            held == self@.contains(term@),
    {
        self.position(term).is_some()
    }
}

} // verus!
