//! Variable-byte integers as HDT containers store them.

use vstd::prelude::*;

verus! {

/// The variable-byte code of `n`: seven value bits per byte, the least
/// significant group first. The high bit is clear on every byte but the last,
/// on which it is set.
pub open spec fn vbyte(n: nat) -> Seq<u8>
    decreases n,
{
    if n < 128 {
        seq![(n + 128) as u8]
    } else {
        seq![(n % 128) as u8] + vbyte(n / 128)
    }
}

/// The number that a variable-byte code at the start of `bytes` stands for.
pub open spec fn vbyte_value(bytes: Seq<u8>) -> nat
    decreases bytes.len(),
{
    if bytes.len() == 0 {
        0
    } else if bytes[0] >= 128 {
        (bytes[0] - 128) as nat
    } else {
        bytes[0] as nat + 128 * vbyte_value(bytes.drop_first())
    }
}

/// The number of bytes that a variable-byte code at the start of `bytes`
/// takes: up to and including the first byte with its high bit set.
pub open spec fn vbyte_width(bytes: Seq<u8>) -> nat
    decreases bytes.len(),
{
    if bytes.len() == 0 {
        0
    } else if bytes[0] >= 128 {
        1
    } else {
        1 + vbyte_width(bytes.drop_first())
    }
}

/// A variable-byte code is never empty, and only its last byte has the high
/// bit set.
pub proof fn lemma_vbyte_shape(n: nat)
    ensures
        vbyte(n).len() >= 1,
        vbyte(n).last() >= 128,
        forall|i: int| 0 <= i < vbyte(n).len() - 1 ==> vbyte(n)[i] < 128,
    decreases n,
{
    if n >= 128 {
        lemma_vbyte_shape(n / 128);
        let rest = vbyte(n / 128);
        let head = seq![(n % 128) as u8];
        assert(vbyte(n) == head + rest);
        assert(vbyte(n).last() == rest.last());
        assert forall|i: int| 0 <= i < vbyte(n).len() - 1 implies vbyte(n)[i] < 128 by {
            if i > 0 {
                assert(vbyte(n)[i] == rest[i - 1]);
            }
        }
    }
}

/// Reading a variable-byte code back gives the number it was made from and
/// stops where the code ends, whatever bytes follow it.
pub proof fn lemma_vbyte_round_trip(n: nat, rest: Seq<u8>)
    ensures
        vbyte_value(vbyte(n) + rest) == n,
        vbyte_width(vbyte(n) + rest) == vbyte(n).len(),
    decreases n,
{
    let all = vbyte(n) + rest;
    if n < 128 {
        assert(all[0] == (n + 128) as u8);
    } else {
        lemma_vbyte_round_trip(n / 128, rest);
        let tail = vbyte(n / 128);
        assert(all[0] == (n % 128) as u8);
        assert(all.drop_first() =~= tail + rest);
    }
}

/// Encodes `n` with `hdt::containers::vbyte::encode_vbyte`. That function
/// pushes the low seven bits of the number while it exceeds 127, shifting it
/// right by seven each time, and ends with the remainder with the high bit
/// set: the code that `vbyte` describes.
#[verifier::external_body]
pub(crate) fn encode_vbyte(n: usize) -> (bytes: Vec<u8>)
    ensures
        bytes@ == vbyte(n as nat),
{
    hdt::containers::vbyte::encode_vbyte(n)
}

/// Appends the variable-byte code of `n` to `dest`.
pub fn write_vbyte(n: usize, dest: &mut Vec<u8>)
    ensures
        final(dest)@ == old(dest)@ + vbyte(n as nat),
{
    let mut code = encode_vbyte(n);
    dest.append(&mut code);
}

} // verus!
