//! Small byte and integer helpers shared by the cipher and the codecs.

use vstd::prelude::*;

verus! {

/// Relies on String::push_str of std: it appends the characters of `other`.
pub assume_specification[ String::push_str ](s: &mut String, other: &str)
    ensures
        final(s)@ == old(s)@ + other@,
;

/// Widen a `u8` to `usize`.
pub fn u8_as_usize(a: u8) -> (r: usize)
    ensures
        r == a as usize,
{
    a as usize
}

/// Widen a `u16` to `usize`.
pub fn u16_as_usize(a: u16) -> (r: usize)
    ensures
        r == a as usize,
{
    a as usize
}

/// Widen a `u32` to `usize`.
pub fn u32_as_usize(a: u32) -> (r: usize)
    ensures
        r == a as usize,
{
    a as usize
}

/// Copy a 32-byte slice into an owned array.
pub fn clone_into_array(slice: &[u8]) -> (r: [u8; 32])
    requires
        slice@.len() == 32,
    ensures
        r@ == slice@,
{
    let mut a = [0u8; 32];
    let mut i: usize = 0;
    while i < 32
        invariant
            i <= 32,
            slice@.len() == 32,
            a@.len() == 32,
            forall|j: int| 0 <= j < i ==> a@[j] == slice@[j],
        decreases 32 - i,
    {
        a[i] = slice[i];
        i = i + 1;
    }
    assert(a@ =~= slice@);
    a
}

/// Pointwise XOR of two byte sequences of equal length.
pub open spec fn xor_seq(a: Seq<u8>, b: Seq<u8>) -> Seq<u8>
    recommends
        a.len() == b.len(),
{
    Seq::new(a.len(), |i: int| a[i] ^ b[i])
}

/// XOR `src1` with `src2` into a fresh buffer.
pub fn xorbytes(src1: &[u8], src2: &[u8]) -> (r: Vec<u8>)
    requires
        src1@.len() == src2@.len(),
    ensures
        r@ == xor_seq(src1@, src2@),
{
    let mut out: Vec<u8> = Vec::new();
    let mut i: usize = 0;
    while i < src1.len()
        invariant
            i <= src1@.len(),
            src1@.len() == src2@.len(),
            out@.len() == i,
            forall|j: int| 0 <= j < i ==> out@[j] == (src1@[j] ^ src2@[j]),
        decreases src1@.len() - i,
    {
        out.push(src1[i] ^ src2[i]);
        i = i + 1;
    }
    assert(out@ =~= xor_seq(src1@, src2@));
    out
}

/// XOR with the same mask twice gives the first sequence back.
pub proof fn lemma_xor_seq_involution(mask: Seq<u8>, data: Seq<u8>)
    requires
        mask.len() == data.len(),
    ensures
        xor_seq(mask, xor_seq(mask, data)) == data,
{
    assert forall|i: int| 0 <= i < data.len() implies xor_seq(mask, xor_seq(mask, data))[i]
        == data[i] by {
        let m = mask[i];
        let d = data[i];
        assert(m ^ (m ^ d) == d) by (bit_vector);
    }
    assert(xor_seq(mask, xor_seq(mask, data)) =~= data);
}

/// XOR is commutative, pointwise.
pub proof fn lemma_xor_seq_comm(a: Seq<u8>, b: Seq<u8>)
    requires
        a.len() == b.len(),
    ensures
        xor_seq(a, b) == xor_seq(b, a),
{
    assert forall|i: int| 0 <= i < a.len() implies xor_seq(a, b)[i] == xor_seq(b, a)[i] by {
        let x = a[i];
        let y = b[i];
        assert(x ^ y == y ^ x) by (bit_vector);
    }
    assert(xor_seq(a, b) =~= xor_seq(b, a));
}

/// `needle` occurs contiguously within `hay`.
pub open spec fn spec_contains_sub(hay: Seq<u8>, needle: Seq<u8>) -> bool {
    exists|k: int|
        #![trigger hay.subrange(k, k + needle.len())]
        0 <= k && k + needle.len() <= hay.len() && hay.subrange(k, k + needle.len()) == needle
}

/// Search for `needle` within `hay`.
pub fn bytes_contains_sub(hay: &[u8], needle: &[u8]) -> (r: bool)
    ensures
        r == spec_contains_sub(hay@, needle@),
{
    if needle.len() > hay.len() {
        return false;
    }
    if needle.len() == 0 {
        proof {
            assert(hay@.subrange(0, 0 + needle@.len() as int) =~= needle@);
        }
        return true;
    }
    let mut k: usize = 0;
    while k <= hay.len() - needle.len()
        invariant
            1 <= needle@.len() <= hay@.len(),
            k <= hay@.len() - needle@.len() + 1,
            forall|k2: int|
                #![trigger hay@.subrange(k2, k2 + needle@.len())]
                0 <= k2 < k ==> hay@.subrange(k2, k2 + needle@.len()) != needle@,
        decreases hay@.len() + 1 - needle@.len() - k,
    {
        let window = vstd::slice::slice_subrange(hay, k, k + needle.len());
        if bytes_eq(window, needle) {
            proof {
                assert(hay@.subrange(k as int, k + needle@.len()) == needle@);
            }
            return true;
        }
        k = k + 1;
    }
    proof {
        assert forall|k2: int|
            #![trigger hay@.subrange(k2, k2 + needle@.len())]
            0 <= k2 && k2 + needle@.len() <= hay@.len() implies hay@.subrange(
            k2,
            k2 + needle@.len(),
        ) != needle@ by {}
    }
    false
}

/// Compare two strings for equality.
pub fn str_eq(a: &str, b: &str) -> (r: bool)
    ensures
        r <==> a@ == b@,
{
    let r = bytes_eq(a.as_bytes(), b.as_bytes());
    proof {
        if vstd::utf8::encode_utf8(a@) == vstd::utf8::encode_utf8(b@) {
            vstd::utf8::encode_utf8_decode_utf8(a@);
            vstd::utf8::encode_utf8_decode_utf8(b@);
        }
    }
    r
}

/// Compare two byte slices for equality.
pub fn bytes_eq(a: &[u8], b: &[u8]) -> (r: bool)
    ensures
        r <==> a@ == b@,
{
    if a.len() != b.len() {
        assert(a@.len() != b@.len());
        return false;
    }
    let mut i: usize = 0;
    while i < a.len()
        invariant
            i <= a@.len(),
            a@.len() == b@.len(),
            forall|j: int| 0 <= j < i ==> a@[j] == b@[j],
        decreases a@.len() - i,
    {
        if a[i] != b[i] {
            return false;
        }
        i = i + 1;
    }
    assert(a@ =~= b@);
    true
}

} // verus!
