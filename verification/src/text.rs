//! Helpers on strings and their characters: common prefixes and the order of
//! dictionary terms.

use vstd::prelude::*;
use vstd::std_specs::iter::IteratorSpec;
use vstd::utf8::{
    char_u32_cast, encode_scalar, encode_utf8, is_ascii_chars, is_ascii_chars_encode_utf8,
};

verus! {

/// The number of leading characters in which `a` and `b` agree.
pub open spec fn common_prefix_len(a: Seq<char>, b: Seq<char>) -> nat
    decreases a.len(),
{
    if a.len() > 0 && b.len() > 0 && a[0] == b[0] {
        1 + common_prefix_len(a.drop_first(), b.drop_first())
    } else {
        0
    }
}

/// `l` is where `a` and `b` first part: they agree before `l`, and at `l`
/// one of them ends or they differ.
pub open spec fn parts_at(a: Seq<char>, b: Seq<char>, l: int) -> bool {
    &&& 0 <= l <= a.len()
    &&& l <= b.len()
    &&& forall|i: int| 0 <= i < l ==> a[i] == b[i]
    &&& (l == a.len() || l == b.len() || a[l] != b[l])
}

/// The common prefix length is the one position at which two sequences part.
pub proof fn lemma_common_prefix(a: Seq<char>, b: Seq<char>, l: int)
    ensures
        parts_at(a, b, common_prefix_len(a, b) as int),
        parts_at(a, b, l) ==> l == common_prefix_len(a, b),
    decreases a.len(),
{
    if a.len() > 0 && b.len() > 0 && a[0] == b[0] {
        let a1 = a.drop_first();
        let b1 = b.drop_first();
        lemma_common_prefix(a1, b1, l - 1);
        let k = common_prefix_len(a1, b1) as int;
        assert forall|i: int| 0 <= i < k + 1 implies a[i] == b[i] by {
            if i > 0 {
                assert(a1[i - 1] == b1[i - 1]);
            }
        }
        if parts_at(a, b, l) {
            assert(l > 0);
            assert forall|i: int| 0 <= i < l - 1 implies a1[i] == b1[i] by {
                assert(a[i + 1] == b[i + 1]);
            }
            assert(parts_at(a1, b1, l - 1));
        }
    }
}

/// The order of dictionary terms: lexicographic by Unicode scalar value, a
/// proper prefix before the longer term.
pub open spec fn term_lt(a: Seq<char>, b: Seq<char>) -> bool {
    let l = common_prefix_len(a, b) as int;
    if l < a.len() && l < b.len() {
        (a[l] as u32) < (b[l] as u32)
    } else {
        a.len() < b.len()
    }
}

/// Of two terms exactly one holds: the first is smaller, they are equal, or
/// the second is smaller.
pub proof fn lemma_term_order_total(a: Seq<char>, b: Seq<char>)
    ensures
        term_lt(a, b) || a == b || term_lt(b, a),
        !(term_lt(a, b) && term_lt(b, a)),
        !(term_lt(a, b) && a == b),
{
    let l = common_prefix_len(a, b) as int;
    lemma_common_prefix(a, b, l);
    lemma_common_prefix(b, a, l);
    assert(parts_at(b, a, l));
    if l == a.len() && l == b.len() {
        assert(a =~= b);
    }
    if l < a.len() && l < b.len() {
        char_u32_cast(a[l], a[l] as u32);
        char_u32_cast(b[l], b[l] as u32);
    }
    if a == b {
        assert(parts_at(a, a, a.len() as int));
        lemma_common_prefix(a, a, a.len() as int);
    }
}

/// The order of terms is transitive.
pub proof fn lemma_term_order_transitive(a: Seq<char>, b: Seq<char>, c: Seq<char>)
    requires
        term_lt(a, b),
        term_lt(b, c),
    ensures
        term_lt(a, c),
{
    let l1 = common_prefix_len(a, b) as int;
    let l2 = common_prefix_len(b, c) as int;
    lemma_common_prefix(a, b, l1);
    lemma_common_prefix(b, c, l2);
    let l = if l1 <= l2 {
        l1
    } else {
        l2
    };
    assert(parts_at(a, c, l));
    lemma_common_prefix(a, c, l);
}

/// The UTF-8 form of a string has at least one byte per character.
pub proof fn lemma_utf8_len(chars: Seq<char>)
    ensures
        encode_utf8(chars).len() >= chars.len(),
    decreases chars.len(),
{
    if chars.len() > 0 {
        lemma_utf8_len(chars.drop_first());
    }
}

proof fn lemma_scalar_bytes_nonzero(s: u32)
    by (bit_vector)
    requires
        s != 0,
    ensures
        s <= 0x7F ==> (s & 0x7F) as u8 != 0,
        (0xC0u8 | ((s >> 6) & 0x1F) as u8) != 0,
        (0xE0u8 | ((s >> 12) & 0x0F) as u8) != 0,
        (0xF0u8 | ((s >> 18) & 0x7) as u8) != 0,
        (0x80u8 | (s & 0x3F) as u8) != 0,
        (0x80u8 | ((s >> 6) & 0x3F) as u8) != 0,
        (0x80u8 | ((s >> 12) & 0x3F) as u8) != 0,
{
}

/// No character of the string is the one with the scalar value zero.
pub open spec fn has_no_nul(chars: Seq<char>) -> bool {
    forall|i: int| 0 <= i < chars.len() ==> (#[trigger] chars[i]) as u32 != 0
}

/// The UTF-8 form of a string without the zero character has no zero byte.
pub proof fn lemma_utf8_no_zero_byte(chars: Seq<char>)
    requires
        has_no_nul(chars),
    ensures
        forall|k: int| 0 <= k < encode_utf8(chars).len() ==> #[trigger] encode_utf8(chars)[k] != 0,
    decreases chars.len(),
{
    if chars.len() > 0 {
        let rest = chars.drop_first();
        assert forall|i: int| 0 <= i < rest.len() implies (#[trigger] rest[i]) as u32 != 0 by {
            assert(rest[i] == chars[i + 1]);
        }
        lemma_utf8_no_zero_byte(rest);
        let s = chars[0] as u32;
        lemma_scalar_bytes_nonzero(s);
        let first = encode_scalar(s);
        assert forall|k: int| 0 <= k < encode_utf8(chars).len() implies #[trigger] encode_utf8(
            chars,
        )[k] != 0 by {
            if k < first.len() {
                assert(encode_utf8(chars)[k] == first[k]);
            } else {
                assert(encode_utf8(chars)[k] == encode_utf8(rest)[k - first.len()]);
            }
        }
    }
}

/// Where two strings part, and the character of each at that place.
pub struct Parting {
    /// The number of leading characters that the two strings share.
    pub shared: usize,
    /// The character of the first string after the shared prefix, if any.
    pub left: Option<char>,
    /// The character of the second string after the shared prefix, if any.
    pub right: Option<char>,
}

/// The character of `s` at `i`, if there is one.
pub open spec fn char_at(s: Seq<char>, i: int) -> Option<char> {
    if 0 <= i < s.len() {
        Some(s[i])
    } else {
        None
    }
}

/// Finds where `a` and `b` part, reading both once from the front.
pub fn parting(a: &str, b: &str) -> (p: Parting)
    ensures
        p.shared == common_prefix_len(a@, b@),
        p.left == char_at(a@, p.shared as int),
        p.right == char_at(b@, p.shared as int),
{
    // A string has no more characters than bytes, so the count fits.
    let byte_len = a.as_bytes().len();
    proof {
        lemma_utf8_len(a@);
        assert(a@.len() <= byte_len);
    }
    let mut left_chars = a.chars();
    let mut right_chars = b.chars();
    let mut shared: usize = 0;
    let mut left = left_chars.next();
    let mut right = right_chars.next();
    let mut going = same_char(left, right);
    while going
        invariant
            a@.len() <= usize::MAX,
            left == char_at(a@, shared as int),
            right == char_at(b@, shared as int),
            going == (left is Some && right is Some && left == right),
            going ==> left_chars.remaining() == a@.skip(shared + 1),
            going ==> right_chars.remaining() == b@.skip(shared + 1),
            shared <= a@.len(),
            shared <= b@.len(),
            forall|i: int| 0 <= i < shared ==> a@[i] == b@[i],
        decreases a@.len() - shared,
    {
        shared += 1;
        left = left_chars.next();
        right = right_chars.next();
        going = same_char(left, right);
        proof {
            if shared < a@.len() {
                assert(a@.skip(shared as int).drop_first() =~= a@.skip(shared + 1));
            }
            if shared < b@.len() {
                assert(b@.skip(shared as int).drop_first() =~= b@.skip(shared + 1));
            }
        }
    }
    proof {
        lemma_common_prefix(a@, b@, shared as int);
    }
    Parting { shared, left, right }
}

fn same_char(left: Option<char>, right: Option<char>) -> (same: bool)
    ensures
        same == (left is Some && right is Some && left == right),
{
    match (left, right) {
        (Some(x), Some(y)) => x == y,
        _ => false,
    }
}

/// The UTF-8 bytes of `s` from its character `from` on.
pub fn suffix_bytes(s: &str, from: usize) -> (bytes: &[u8])
    requires
        from <= s@.len(),
    ensures
        bytes@ == encode_utf8(s@.skip(from as int)),
{
    let end = s.unicode_len();
    let tail = s.substring_char(from, end);
    assert(s@.subrange(from as int, end as int) =~= s@.skip(from as int));
    tail.as_bytes()
}

/// How one term stands to another in the order of terms.
#[derive(Clone, Copy, Debug, PartialEq, Eq, Structural)]
pub enum TermOrder {
    /// The first term comes before the second.
    Less,
    /// The two terms are the same.
    Equal,
    /// The first term comes after the second.
    Greater,
}

/// What `compare_terms` returns for two terms.
pub open spec fn term_order(a: Seq<char>, b: Seq<char>) -> TermOrder {
    if term_lt(a, b) {
        TermOrder::Less
    } else if a == b {
        TermOrder::Equal
    } else {
        TermOrder::Greater
    }
}

/// Compares two terms in the order of terms.
pub fn compare_terms(a: &str, b: &str) -> (order: TermOrder)
    ensures
        order == term_order(a@, b@),
{
    let p = parting(a, b);
    proof {
        lemma_common_prefix(a@, b@, p.shared as int);
        lemma_term_order_total(a@, b@);
    }
    match (p.left, p.right) {
        (Some(x), Some(y)) => {
            if (x as u32) < (y as u32) {
                TermOrder::Less
            } else {
                TermOrder::Greater
            }
        },
        (None, Some(_)) => TermOrder::Less,
        (Some(_), None) => TermOrder::Greater,
        (None, None) => {
            assert(a@ =~= b@);
            TermOrder::Equal
        },
    }
}

/// The character of a decimal digit.
pub open spec fn digit_char(d: nat) -> char {
    if d == 0 {
        '0'
    } else if d == 1 {
        '1'
    } else if d == 2 {
        '2'
    } else if d == 3 {
        '3'
    } else if d == 4 {
        '4'
    } else if d == 5 {
        '5'
    } else if d == 6 {
        '6'
    } else if d == 7 {
        '7'
    } else if d == 8 {
        '8'
    } else {
        '9'
    }
}

/// The decimal numeral of `n`, without leading zeros.
pub open spec fn decimal(n: nat) -> Seq<char>
    decreases n,
{
    if n < 10 {
        seq![digit_char(n)]
    } else {
        decimal(n / 10).push(digit_char(n % 10))
    }
}

fn digit_str(d: u8) -> (s: &'static str)
    requires
        d < 10,
    ensures
        s@ == seq![digit_char(d as nat)],
{
    proof {
        reveal_strlit("0");
        reveal_strlit("1");
        reveal_strlit("2");
        reveal_strlit("3");
        reveal_strlit("4");
        reveal_strlit("5");
        reveal_strlit("6");
        reveal_strlit("7");
        reveal_strlit("8");
        reveal_strlit("9");
    }
    let s = match d {
        0 => "0",
        1 => "1",
        2 => "2",
        3 => "3",
        4 => "4",
        5 => "5",
        6 => "6",
        7 => "7",
        8 => "8",
        _ => "9",
    };
    assert(s@ =~= seq![digit_char(d as nat)]);
    s
}

/// Appends the decimal numeral of `n` to `dest`.
pub fn append_decimal(n: u128, dest: &mut String)
    ensures
        final(dest)@ == old(dest)@ + decimal(n as nat),
    decreases n,
{
    if n >= 10 {
        append_decimal(n / 10, dest);
    }
    dest.append(digit_str((n % 10) as u8));
    assert(dest@ =~= old(dest)@ + decimal(n as nat));
}

/// The decimal numeral of `n`.
pub fn decimal_string(n: u128) -> (s: String)
    ensures
        s@ == decimal(n as nat),
{
    let mut s = String::new();
    append_decimal(n, &mut s);
    assert(s@ =~= decimal(n as nat));
    s
}

/// A character as N-Triples write it inside a literal: a backslash before a
/// double quote or a backslash, `\n` and `\r` for line feed and carriage
/// return, any other character as it is.
pub open spec fn escaped_char(c: char) -> Seq<char> {
    if c == '"' {
        seq!['\\', '"']
    } else if c == '\\' {
        seq!['\\', '\\']
    } else if c == '\n' {
        seq!['\\', 'n']
    } else if c == '\r' {
        seq!['\\', 'r']
    } else {
        seq![c]
    }
}

/// The first `n` characters of a lexical form as N-Triples write them.
pub open spec fn escaped_upto(value: Seq<char>, n: nat) -> Seq<char>
    decreases n,
{
    if n == 0 {
        Seq::empty()
    } else {
        escaped_upto(value, (n - 1) as nat) + escaped_char(value[n - 1])
    }
}

/// A lexical form as N-Triples write it between the quotes.
pub open spec fn escaped(value: Seq<char>) -> Seq<char> {
    escaped_upto(value, value.len())
}

/// Appends a character with `String::push`, which puts the given character
/// at the end of the string.
#[verifier::external_body]
fn push_char(text: &mut String, c: char)
    ensures
        final(text)@ == old(text)@.push(c),
{
    text.push(c);
}

/// Appends a lexical form to `dest` as N-Triples write it between the
/// quotes.
pub fn append_escaped(value: &str, dest: &mut String)
    ensures
        final(dest)@ == old(dest)@ + escaped(value@),
{
    for c in it: value.chars()
        invariant
            it.seq() == value@,
            dest@ == old(dest)@ + escaped_upto(value@, it.index() as nat),
    {
        let ghost before = dest@;
        if c == '"' {
            push_char(dest, '\\');
            push_char(dest, '"');
        } else if c == '\\' {
            push_char(dest, '\\');
            push_char(dest, '\\');
        } else if c == '\n' {
            push_char(dest, '\\');
            push_char(dest, 'n');
        } else if c == '\r' {
            push_char(dest, '\\');
            push_char(dest, 'r');
        } else {
            push_char(dest, c);
        }
        assert(dest@ =~= before + escaped_char(c));
        assert(dest@ =~= old(dest)@ + escaped_upto(value@, (it.index() + 1) as nat));
    }
}

/// No character of the text is one that N-Triples escape.
pub open spec fn needs_no_escape(text: Seq<char>) -> bool {
    forall|i: int| 0 <= i < text.len() ==> escaped_char(#[trigger] text[i]) == seq![text[i]]
}

/// A text without characters to escape is written as it is.
pub proof fn lemma_escaped_plain(text: Seq<char>, n: nat)
    requires
        needs_no_escape(text),
        n <= text.len(),
    ensures
        escaped_upto(text, n) == text.take(n as int),
    decreases n,
{
    if n > 0 {
        lemma_escaped_plain(text, (n - 1) as nat);
        assert(text.take(n as int) =~= text.take(n - 1) + seq![text[n - 1]]);
    } else {
        assert(text.take(0) =~= Seq::<char>::empty());
    }
}

/// A decimal numeral is written as it is.
pub proof fn lemma_decimal_needs_no_escape(n: nat)
    ensures
        needs_no_escape(decimal(n)),
        escaped(decimal(n)) == decimal(n),
    decreases n,
{
    if n >= 10 {
        lemma_decimal_needs_no_escape(n / 10);
    }
    lemma_escaped_plain(decimal(n), decimal(n).len());
    assert(decimal(n).take(decimal(n).len() as int) =~= decimal(n));
}

/// The number that decimal digits in ASCII stand for.
pub open spec fn decimal_value(digits: Seq<u8>) -> nat
    decreases digits.len(),
{
    if digits.len() == 0 {
        0
    } else {
        (decimal_value(digits.drop_last()) * 10 + (digits.last() - 48)) as nat
    }
}

/// A decimal numeral is ASCII without the zero character, and read back
/// from its bytes it gives the number it was made from.
pub proof fn lemma_decimal_round_trip(n: nat)
    ensures
        is_ascii_chars(decimal(n)),
        has_no_nul(decimal(n)),
        encode_utf8(decimal(n)).len() == decimal(n).len(),
        decimal_value(encode_utf8(decimal(n))) == n,
    decreases n,
{
    let chars = decimal(n);
    if n < 10 {
        assert(is_ascii_chars(chars));
        is_ascii_chars_encode_utf8(chars);
        let bytes = encode_utf8(chars);
        assert(bytes.len() == 1);
        assert(bytes[0] == chars[0] as u8);
        assert(digit_char(n) as u8 == 48 + n);
        assert(bytes.drop_last().len() == 0);
        assert(decimal_value(bytes.drop_last()) == 0);
    } else {
        lemma_decimal_round_trip(n / 10);
        let front = decimal(n / 10);
        let digit = digit_char(n % 10);
        assert(chars == front.push(digit));
        assert(is_ascii_chars(chars)) by {
            assert forall|i: int| 0 <= i < chars.len() implies '\0' <= #[trigger] chars[i]
                <= '\u{7f}' by {
                if i < front.len() {
                    assert(chars[i] == front[i]);
                }
            }
        }
        assert(has_no_nul(chars)) by {
            assert forall|i: int| 0 <= i < chars.len() implies (#[trigger] chars[i]) as u32
                != 0 by {
                if i < front.len() {
                    assert(chars[i] == front[i]);
                }
            }
        }
        is_ascii_chars_encode_utf8(chars);
        is_ascii_chars_encode_utf8(front);
        let bytes = encode_utf8(chars);
        assert(bytes.drop_last() =~= encode_utf8(front)) by {
            assert forall|i: int| 0 <= i < front.len() implies bytes.drop_last()[i] == encode_utf8(
                front,
            )[i] by {
                assert(bytes[i] == chars[i] as u8);
                assert(encode_utf8(front)[i] == front[i] as u8);
            }
        }
        assert(bytes.last() == chars[chars.len() - 1] as u8);
        assert(bytes.last() == digit as u8);
        assert(digit as u8 == 48 + n % 10);
    }
}

} // verus!
