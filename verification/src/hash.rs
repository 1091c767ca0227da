//! Digests: the 32-byte hash value and the streaming hasher that produces it.
use crate::crypto::{base32, base32_encode, digest, disco_digest, disco_digest_unwritten};
use vstd::prelude::*;

verus! {

/// Number of bytes in a digest.
pub const HASH_LENGTH: usize = 32;


/// The bytes of the all-zero digest.
pub open spec fn zero_hash() -> Seq<u8> {
    Seq::new(32, |i: int| 0u8)
}

/// A 32-byte digest. Equality is byte equality, the order is lexicographic.
#[derive(Clone, Copy, Debug, Eq, Hash, PartialOrd, Ord)]
pub struct Hash {
    pub bytes: [u8; 32],
}

impl View for Hash {
    type V = Seq<u8>;

    open spec fn view(&self) -> Seq<u8> {
        self.bytes@
    }
}

impl PartialEq for Hash {
    fn eq(&self, other: &Hash) -> (r: bool) {
        let mut i: usize = 0;
        while i < 32
            invariant
                i <= 32,
                forall|j: int| 0 <= j < i ==> self.bytes[j] == other.bytes[j],
            decreases 32 - i,
        {
            if self.bytes[i] != other.bytes[i] {
                return false;
            }
            i += 1;
        }
        assert(self.bytes =~= other.bytes);
        true
    }
}

impl vstd::std_specs::cmp::PartialEqSpecImpl for Hash {
    open spec fn obeys_eq_spec() -> bool {
        true
    }

    open spec fn eq_spec(&self, other: &Hash) -> bool {
        *self == *other
    }
}

/// Two digests with the same bytes are the same digest.
pub proof fn lemma_hash_ext(a: Hash, b: Hash)
    ensures
        (a@ == b@) <==> (a == b),
        a@.len() == 32,
{
    if a@ == b@ {
        assert(a.bytes =~= b.bytes);
    }
}

impl Hash {
    /// The all-zero digest that stands for "no parent".
    pub fn genesis() -> (hash: Hash)
        ensures
            hash@ == zero_hash(),
    {
        let hash = Hash { bytes: [0u8; 32] };
        assert(hash@ =~= zero_hash());
        hash
    }

    /// The digest whose bytes are those of `bytes`.
    pub fn from_bytes(bytes: &[u8]) -> (hash: Hash)
        requires
            bytes@.len() == 32,
        ensures
            hash@ == bytes@,
    {
        let mut out = [0u8; 32];
        let mut i: usize = 0;
        while i < 32
            invariant
                i <= 32,
                bytes@.len() == 32,
                forall|j: int| 0 <= j < i ==> out[j] == bytes@[j],
            decreases 32 - i,
        {
            out[i] = bytes[i];
            i += 1;
        }
        assert(out@ =~= bytes@);
        Hash { bytes: out }
    }

    /// The bytes of the digest.
    pub fn to_bytes(&self) -> (out: Vec<u8>)
        ensures
            out@ == self@,
    {
        let mut out: Vec<u8> = Vec::new();
        let mut i: usize = 0;
        while i < 32
            invariant
                i <= 32,
                out@ == self@.subrange(0, i as int),
            decreases 32 - i,
        {
            out.push(self.bytes[i]);
            assert(out@ =~= self@.subrange(0, i + 1));
            i += 1;
        }
        assert(out@ =~= self@);
        out
    }

    /// The name under which content with this digest is filed: the base32
    /// text of the digest.
    pub fn file_name(&self) -> (name: String)
        ensures
            name@ == base32(self@),
    {
        base32_encode(self.bytes.as_slice())
    }
}

/// A streaming hasher: it absorbs byte segments and yields the digest of
/// their concatenation.
pub struct Hasher {
    data: Vec<u8>,
    written: bool,
}

impl View for Hasher {
    type V = Seq<u8>;

    closed spec fn view(&self) -> Seq<u8> {
        self.data@
    }
}

impl Hasher {
    /// Whether anything, even an empty segment, was absorbed.
    pub closed spec fn written(&self) -> bool {
        self.written
    }

    /// A hasher that has absorbed nothing.
    pub fn new() -> (hasher: Hasher)
        ensures
            hasher@ == Seq::<u8>::empty(),
            !hasher.written(),
    {
        Hasher { data: Vec::new(), written: false }
    }

    /// Absorbs one more segment.
    pub fn write(&mut self, bytes: &[u8])
        ensures
            final(self)@ == old(self)@ + bytes@,
            final(self).written(),
    {
        self.data.extend_from_slice(bytes);
        self.written = true;
    }

    /// The digest of everything absorbed.
    pub fn sum(self) -> (hash: Hash)
        ensures
            self.written() ==> hash@ == digest(self@),
    {
        if self.written {
            Hash { bytes: disco_digest(self.data.as_slice()) }
        } else {
            Hash { bytes: disco_digest_unwritten() }
        }
    }

    /// The digest of `bytes` absorbed as one segment.
    pub fn digest(bytes: &[u8]) -> (hash: Hash)
        ensures
            hash@ == digest(bytes@),
    {
        Hash { bytes: disco_digest(bytes) }
    }
}

} // verus!
