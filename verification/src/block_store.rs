//! The content-addressed block log and the single mutable ring slot. A
//! block's id is the lowercase hex of the SHA-256 of its bytes; a block,
//! once present, never changes. The store models one on-disk directory;
//! entries read back from such a directory are loaded as they are found.

use vstd::prelude::*;

use crate::crypto::{sha256, sha256_of};
use crate::error::SecretStoreError;
use crate::util::str_eq;
use vstd::slice::slice_to_vec;

verus! {

/// The lowercase hex digit of a value below 16.
pub open spec fn spec_hex_digit(n: u8) -> char
    recommends
        n < 16,
{
    if n == 0 {
        '0'
    } else if n == 1 {
        '1'
    } else if n == 2 {
        '2'
    } else if n == 3 {
        '3'
    } else if n == 4 {
        '4'
    } else if n == 5 {
        '5'
    } else if n == 6 {
        '6'
    } else if n == 7 {
        '7'
    } else if n == 8 {
        '8'
    } else if n == 9 {
        '9'
    } else if n == 10 {
        'a'
    } else if n == 11 {
        'b'
    } else if n == 12 {
        'c'
    } else if n == 13 {
        'd'
    } else if n == 14 {
        'e'
    } else {
        'f'
    }
}

/// The lowercase hex rendering of a byte string, two digits per byte.
pub open spec fn spec_hex(s: Seq<u8>) -> Seq<char>
    decreases s.len(),
{
    if s.len() == 0 {
        Seq::<char>::empty()
    } else {
        seq![
            spec_hex_digit(s.first() / 16),
            spec_hex_digit(s.first() % 16),
        ] + spec_hex(s.drop_first())
    }
}

/// The id under which a block's bytes are stored.
pub open spec fn spec_block_id(bytes: Seq<u8>) -> Seq<char> {
    spec_hex(sha256_of(bytes))
}

/// Map a value below 16 to its lowercase hex digit.
pub fn hex_digit(n: u8) -> (r: char)
    requires
        n < 16,
    ensures
        r == spec_hex_digit(n),
{
    if n == 0 {
        '0'
    } else if n == 1 {
        '1'
    } else if n == 2 {
        '2'
    } else if n == 3 {
        '3'
    } else if n == 4 {
        '4'
    } else if n == 5 {
        '5'
    } else if n == 6 {
        '6'
    } else if n == 7 {
        '7'
    } else if n == 8 {
        '8'
    } else if n == 9 {
        '9'
    } else if n == 10 {
        'a'
    } else if n == 11 {
        'b'
    } else if n == 12 {
        'c'
    } else if n == 13 {
        'd'
    } else if n == 14 {
        'e'
    } else {
        'f'
    }
}

/// Collect characters into a string.
///
/// Relies on String::from_iter of std: it appends the characters in order.
#[verifier::external_body]
fn string_from_chars(chars: Vec<char>) -> (r: String)
    ensures
        r@ == chars@,
{
    chars.into_iter().collect()
}

/// Render a byte string as lowercase hex.
pub fn to_hex(data: &[u8]) -> (r: String)
    ensures
        r@ == spec_hex(data@),
{
    let mut out: Vec<char> = Vec::new();
    let mut i: usize = 0;
    proof {
        assert(data@.skip(0) == data@);
    }
    while i < data.len()
        invariant
            i <= data@.len(),
            spec_hex(data@) == out@ + spec_hex(data@.skip(i as int)),
        decreases data@.len() - i,
    {
        let b = data[i];
        out.push(hex_digit(b / 16));
        out.push(hex_digit(b % 16));
        proof {
            assert(data@.skip(i as int).first() == data@[i as int]);
            assert(data@.skip(i as int).drop_first() == data@.skip(i as int + 1));
            assert(spec_hex(data@) =~= out@ + spec_hex(data@.skip(i as int + 1)));
        }
        i = i + 1;
    }
    proof {
        assert(spec_hex(data@.skip(data@.len() as int)) =~= Seq::<char>::empty());
        assert(out@ =~= spec_hex(data@));
    }
    string_from_chars(out)
}

/// The append-only block log with its single mutable ring slot.
pub struct BlockStore {
    entries: Vec<(String, Vec<u8>)>,
    ring: Option<Vec<u8>>,
}

#[verifier::ext_equal]
pub ghost struct BlockStoreView {
    pub entries: Seq<(Seq<char>, Seq<u8>)>,
    pub ring: Option<Seq<u8>>,
}

impl View for BlockStore {
    type V = BlockStoreView;

    closed spec fn view(&self) -> BlockStoreView {
        BlockStoreView {
            entries: Seq::new(self.entries@.len(), |i: int| (self.entries@[i].0@,
                self.entries@[i].1@)),
            ring: match self.ring {
                Some(ref r) => Some(r@),
                None => None,
            },
        }
    }
}

/// Some entry holds `id`.
pub open spec fn spec_contains_id(entries: Seq<(Seq<char>, Seq<u8>)>, id: Seq<char>) -> bool {
    exists|i: int| 0 <= i < entries.len() && (#[trigger] entries[i]).0 == id
}

/// Some entry holds `id` with exactly these bytes.
pub open spec fn spec_has_block(
    entries: Seq<(Seq<char>, Seq<u8>)>,
    id: Seq<char>,
    bytes: Seq<u8>,
) -> bool {
    exists|i: int| 0 <= i < entries.len() && #[trigger] entries[i] == (id, bytes)
}

/// Ids are unique across the log.
pub open spec fn store_wf(v: BlockStoreView) -> bool {
    forall|i: int, j: int|
        0 <= i < j < v.entries.len() ==> (#[trigger] v.entries[i]).0 != (#[trigger] v.entries[j]).0
}

impl BlockStore {
    /// Ids are unique across the log.
    pub open spec fn wf(&self) -> bool {
        store_wf(self@)
    }

    /// An empty store.
    pub fn new() -> (r: BlockStore)
        ensures
            r.wf(),
            r@.entries.len() == 0,
            r@.ring is None,
    {
        BlockStore { entries: Vec::new(), ring: None }
    }

    /// Find the position of `id` in the log.
    fn find(&self, id: &str) -> (r: Option<usize>)
        ensures
            r is Some ==> ({
                let i = r.unwrap();
                &&& i < self@.entries.len()
                &&& self@.entries[i as int].0 == id@
            }),
            r is None ==> !spec_contains_id(self@.entries, id@),
    {
        let mut i: usize = 0;
        while i < self.entries.len()
            invariant
                i <= self@.entries.len(),
                self@.entries.len() == self.entries@.len(),
                forall|j: int| 0 <= j < i ==> (#[trigger] self@.entries[j]).0 != id@,
            decreases self@.entries.len() - i,
        {
            if str_eq(self.entries[i].0.as_str(), id) {
                proof {
                    assert(self@.entries[i as int].0 == id@);
                }
                return Some(i);
            }
            proof {
                assert(self@.entries[i as int].0 != id@);
            }
            i = i + 1;
        }
        None
    }

    /// Store a block under the hash of its bytes. Idempotent: storing bytes
    /// whose id is already present leaves the log unchanged.
    pub fn store_block(&mut self, bytes: Vec<u8>) -> (id: String)
        requires
            old(self).wf(),
        ensures
            final(self).wf(),
            id@ == spec_block_id(bytes@),
            final(self)@.ring == old(self)@.ring,
            spec_contains_id(old(self)@.entries, id@) ==> final(self)@ == old(self)@,
            !spec_contains_id(old(self)@.entries, id@) ==> final(self)@.entries == old(
                self,
            )@.entries.push((id@, bytes@)),
    {
        let digest = sha256(bytes.as_slice());
        let id = to_hex(digest.as_slice());
        match self.find(id.as_str()) {
            Some(_) => id,
            None => {
                let ghost pre = self@.entries;
                self.entries.push((id.clone(), bytes));
                proof {
                    assert(self@.entries =~= pre.push((id@, bytes@)));
                    assert forall|i: int, j: int| 0 <= i < j < self@.entries.len() implies (
                    #[trigger] self@.entries[i]).0 != (#[trigger] self@.entries[j]).0 by {
                        if j == self@.entries.len() - 1 {
                            assert(self@.entries[i] == pre[i]);
                            assert(!spec_contains_id(pre, id@));
                        }
                    }
                }
                id
            },
        }
    }

    /// Fetch the bytes stored under `id`.
    pub fn get_block(&self, id: &str) -> (r: Result<Vec<u8>, SecretStoreError>)
        ensures
            r matches Ok(b) ==> spec_has_block(self@.entries, id@, b@),
            r is Err ==> (r matches Err(SecretStoreError::NotFound) && !spec_contains_id(
                self@.entries,
                id@,
            )),
    {
        match self.find(id) {
            Some(i) => {
                let b = slice_to_vec(self.entries[i].1.as_slice());
                proof {
                    assert(self@.entries[i as int] == (id@, b@));
                }
                Ok(b)
            },
            None => Err(SecretStoreError::NotFound),
        }
    }

    /// All block ids, in the order they entered the log.
    pub fn list_blocks(&self) -> (r: Vec<String>)
        ensures
            r@.len() == self@.entries.len(),
            forall|i: int| 0 <= i < r@.len() ==> (#[trigger] r@[i])@ == self@.entries[i].0,
    {
        let mut out: Vec<String> = Vec::new();
        let mut i: usize = 0;
        while i < self.entries.len()
            invariant
                i <= self.entries@.len(),
                self@.entries.len() == self.entries@.len(),
                out@.len() == i,
                forall|j: int| 0 <= j < i ==> (#[trigger] out@[j])@ == self@.entries[j].0,
            decreases self.entries@.len() - i,
        {
            out.push(self.entries[i].0.clone());
            i = i + 1;
        }
        out
    }

    /// Replace the ring blob.
    pub fn store_ring(&mut self, bytes: Vec<u8>)
        requires
            old(self).wf(),
        ensures
            final(self).wf(),
            final(self)@.entries == old(self)@.entries,
            final(self)@.ring == Some(bytes@),
    {
        self.ring = Some(bytes);
        proof {
            assert(final(self)@.entries =~= old(self)@.entries);
        }
    }

    /// The current ring blob, if one was ever stored.
    pub fn get_ring(&self) -> (r: Option<Vec<u8>>)
        ensures
            r is Some <==> self@.ring is Some,
            r is Some ==> r.unwrap()@ == self@.ring.unwrap(),
    {
        match &self.ring {
            Some(bytes) => Some(slice_to_vec(bytes.as_slice())),
            None => None,
        }
    }

    /// Load a pre-existing entry, as found when reading a store directory
    /// back from disk. The id is taken as it stands; nothing checks that it
    /// matches the bytes.
    pub fn load_block(&mut self, id: String, bytes: Vec<u8>) -> (r: Result<(), SecretStoreError>)
        requires
            old(self).wf(),
        ensures
            final(self).wf(),
            final(self)@.ring == old(self)@.ring,
            r is Ok ==> !spec_contains_id(old(self)@.entries, id@) && final(self)@.entries == old(
                self,
            )@.entries.push((id@, bytes@)),
            r is Err ==> (r matches Err(SecretStoreError::Conflict) && spec_contains_id(
                old(self)@.entries,
                id@,
            ) && final(self)@ == old(self)@),
    {
        match self.find(id.as_str()) {
            Some(_) => Err(SecretStoreError::Conflict),
            None => {
                let ghost pre = self@.entries;
                let ghost idv = id@;
                self.entries.push((id, bytes));
                proof {
                    assert(self@.entries =~= pre.push((idv, bytes@)));
                    assert forall|i: int, j: int| 0 <= i < j < self@.entries.len() implies (
                    #[trigger] self@.entries[i]).0 != (#[trigger] self@.entries[j]).0 by {
                        if j == self@.entries.len() - 1 {
                            assert(self@.entries[i] == pre[i]);
                            assert(!spec_contains_id(pre, idv));
                        }
                    }
                }
                Ok(())
            },
        }
    }
}

/// Storing the same bytes twice yields the same id and leaves a single
/// entry: the second store finds the first entry's id and changes nothing.
pub proof fn lemma_store_block_idempotent(
    pre: BlockStoreView,
    mid: BlockStoreView,
    fin: BlockStoreView,
    bytes: Seq<u8>,
)
    requires
        !spec_contains_id(pre.entries, spec_block_id(bytes)),
        mid.entries == pre.entries.push((spec_block_id(bytes), bytes)),
        spec_contains_id(mid.entries, spec_block_id(bytes)) ==> fin == mid,
    ensures
        fin == mid,
        spec_has_block(fin.entries, spec_block_id(bytes), bytes),
{
    let n = mid.entries.len() - 1;
    assert(mid.entries[n] == (spec_block_id(bytes), bytes));
    assert(spec_contains_id(mid.entries, spec_block_id(bytes)));
    assert(spec_has_block(fin.entries, spec_block_id(bytes), bytes));
}

} // verus!
