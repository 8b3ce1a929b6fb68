//! Secret memory: byte buffers that are wiped when released, so that key
//! material does not linger on the heap after use.

use vstd::prelude::*;

verus! {

/// Overwrite every byte of `v` with zero and empty it.
///
/// Relies on zeroize::Zeroize for Vec<u8>: every element and the spare
/// capacity are overwritten with zero through a volatile write that the
/// compiler will not elide, and the vector is cleared.
#[verifier::external_body]
pub fn wipe_bytes(v: &mut Vec<u8>)
    ensures
        final(v)@.len() == 0,
{
    zeroize::Zeroize::zeroize(v);
}

/// A byte buffer for key material and plaintext secrets. The contents are
/// overwritten with zeros when the buffer is dropped or explicitly wiped.
pub struct SecretBytes {
    data: Vec<u8>,
}

impl View for SecretBytes {
    type V = Seq<u8>;

    closed spec fn view(&self) -> Seq<u8> {
        self.data@
    }
}

impl SecretBytes {
    /// A buffer of `n` zero bytes.
    pub fn zeroed(n: usize) -> (r: SecretBytes)
        ensures
            r@.len() == n,
            forall|i: int| 0 <= i < n ==> r@[i] == 0,
    {
        let mut data: Vec<u8> = Vec::new();
        let mut i: usize = 0;
        while i < n
            invariant
                i <= n,
                data@.len() == i,
                forall|j: int| 0 <= j < i ==> data@[j] == 0,
            decreases n - i,
        {
            data.push(0u8);
            i = i + 1;
        }
        SecretBytes { data }
    }

    /// Take ownership of an already-secret vector without copying it.
    pub fn from_vec(data: Vec<u8>) -> (r: SecretBytes)
        ensures
            r@ == data@,
    {
        SecretBytes { data }
    }

    /// Move the contents of `src` into a fresh buffer, wiping `src`.
    pub fn from_mut(src: &mut Vec<u8>) -> (r: SecretBytes)
        ensures
            r@ == old(src)@,
            final(src)@.len() == 0,
    {
        let mut data: Vec<u8> = Vec::new();
        let mut i: usize = 0;
        while i < src.len()
            invariant
                i <= src@.len(),
                src@ == old(src)@,
                data@ == old(src)@.subrange(0, i as int),
            decreases src@.len() - i,
        {
            data.push(src[i]);
            i = i + 1;
            assert(data@ =~= old(src)@.subrange(0, i as int));
        }
        assert(data@ =~= old(src)@);
        wipe_bytes(src);
        SecretBytes { data }
    }

    /// Read access to the contents.
    pub fn borrow(&self) -> (r: &[u8])
        ensures
            r@ == self@,
    {
        self.data.as_slice()
    }

    /// The number of bytes held.
    pub fn len(&self) -> (r: usize)
        ensures
            r == self@.len(),
    {
        self.data.len()
    }

    /// True when the buffer holds no bytes.
    pub fn is_empty(&self) -> (r: bool)
        ensures
            r <==> self@.len() == 0,
    {
        self.data.len() == 0
    }

    /// Overwrite the contents with zeros and empty the buffer.
    pub fn wipe(&mut self)
        ensures
            final(self)@.len() == 0,
    {
        wipe_bytes(&mut self.data);
    }
}

impl Drop for SecretBytes {
    /// Relies on zeroize::Zeroize for Vec<u8>: the buffer is overwritten
    /// with zeros before its memory is returned to the allocator.
    #[verifier::external_body]
    fn drop(&mut self)
        opens_invariants none
        no_unwind
    {
        zeroize::Zeroize::zeroize(&mut self.data);
    }
}

} // verus!
