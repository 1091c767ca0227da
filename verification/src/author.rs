//! Authors, their signatures and the identity that signs for one author.
use crate::bytes::{bytes_equal, compare_bytes, lex_lt, Order};
use crate::crypto::{
    ed25519_generate, ed25519_public, ed25519_sign, ed25519_verify, halves_match, keypair_parses,
    keypair_valid,
    public_key_parses, public_key_valid, signature_of, signature_parses, signature_valid,
    signature_verifies,
};
use crate::error::Error;
use vstd::prelude::*;

verus! {

/// A participant, known by its 32-byte public key. Authors are ordered by
/// their bytes.
#[derive(Clone, Copy, Debug, Eq, Hash, PartialOrd, Ord)]
pub struct Author {
    key: [u8; 32],
}

impl View for Author {
    type V = Seq<u8>;

    closed spec fn view(&self) -> Seq<u8> {
        self.key@
    }
}

impl PartialEq for Author {
    fn eq(&self, other: &Author) -> (r: bool) {
        let same = bytes_equal(self.key.as_slice(), other.key.as_slice());
        proof {
            if same {
                assert(self.key =~= other.key);
            }
        }
        same
    }
}

impl vstd::std_specs::cmp::PartialEqSpecImpl for Author {
    open spec fn obeys_eq_spec() -> bool {
        true
    }

    open spec fn eq_spec(&self, other: &Author) -> bool {
        *self == *other
    }
}

/// Two authors with the same key bytes are the same author.
pub proof fn lemma_author_ext(a: Author, b: Author)
    ensures
        (a@ == b@) <==> (a == b),
        a@.len() == 32,
{
    if a@ == b@ {
        assert(a.key =~= b.key);
    }
}

impl Author {
    /// The author with the public key `bytes`, if they encode one.
    pub fn from_bytes(bytes: &[u8]) -> (r: Result<Author, Error>)
        ensures
            r is Ok <==> public_key_valid(bytes@),
            r matches Ok(author) ==> author@ == bytes@,
            r matches Err(e) ==> e == Error::Sig,
    {
        if !public_key_parses(bytes) {
            return Err(Error::Sig);
        }
        let mut key = [0u8; 32];
        let mut i: usize = 0;
        while i < 32
            invariant
                i <= 32,
                bytes@.len() == 32,
                forall|j: int| 0 <= j < i ==> key[j] == bytes@[j],
            decreases 32 - i,
        {
            key[i] = bytes[i];
            i += 1;
        }
        assert(key@ =~= bytes@);
        Ok(Author { key })
    }

    /// The author with the key bytes `bytes`, which are those of an author.
    pub(crate) fn from_key(bytes: &[u8]) -> (author: Author)
        requires
            bytes@.len() == 32,
        ensures
            author@ == bytes@,
    {
        let mut key = [0u8; 32];
        let mut i: usize = 0;
        while i < 32
            invariant
                i <= 32,
                bytes@.len() == 32,
                forall|j: int| 0 <= j < i ==> key[j] == bytes@[j],
            decreases 32 - i,
        {
            key[i] = bytes[i];
            i += 1;
        }
        assert(key@ =~= bytes@);
        Author { key }
    }

    /// The bytes of the public key.
    pub fn as_bytes(&self) -> (bytes: &[u8; 32])
        ensures
            bytes@ == self@,
    {
        &self.key
    }

    /// The bytes of the public key.
    pub fn to_bytes(&self) -> (bytes: [u8; 32])
        ensures
            bytes@ == self@,
    {
        self.key
    }

    /// Whether `sig` is this author's signature on `msg`.
    pub fn verify(&self, msg: &[u8], sig: &Signature) -> (ok: bool)
        ensures
            ok == signature_verifies(self@, msg@, sig@),
    {
        ed25519_verify(self.key.as_slice(), msg, sig.bytes.as_slice())
    }

    /// How this author stands to `other` in the order of their bytes.
    pub fn compare(&self, other: &Author) -> (order: Order)
        ensures
            order == Order::Less <==> lex_lt(self@, other@),
            order == Order::Equal <==> *self == *other,
            order == Order::Greater <==> lex_lt(other@, self@),
    {
        proof {
            lemma_author_ext(*self, *other);
        }
        compare_bytes(self.key.as_slice(), other.key.as_slice())
    }
}

/// A 64-byte signature.
#[derive(Clone, Copy, Debug, Eq, Hash, PartialOrd, Ord)]
pub struct Signature {
    bytes: [u8; 64],
}

impl View for Signature {
    type V = Seq<u8>;

    closed spec fn view(&self) -> Seq<u8> {
        self.bytes@
    }
}

impl PartialEq for Signature {
    fn eq(&self, other: &Signature) -> (r: bool) {
        let same = bytes_equal(self.bytes.as_slice(), other.bytes.as_slice());
        proof {
            if same {
                assert(self.bytes =~= other.bytes);
            }
        }
        same
    }
}

impl vstd::std_specs::cmp::PartialEqSpecImpl for Signature {
    open spec fn obeys_eq_spec() -> bool {
        true
    }

    open spec fn eq_spec(&self, other: &Signature) -> bool {
        *self == *other
    }
}

/// Two signatures with the same bytes are the same signature.
pub proof fn lemma_signature_ext(a: Signature, b: Signature)
    ensures
        (a@ == b@) <==> (a == b),
        a@.len() == 64,
{
    if a@ == b@ {
        assert(a.bytes =~= b.bytes);
    }
}

impl Signature {
    /// The signature with the bytes `bytes`, if they encode one.
    pub fn from_bytes(bytes: &[u8]) -> (r: Result<Signature, Error>)
        ensures
            r is Ok <==> signature_valid(bytes@),
            r matches Ok(sig) ==> sig@ == bytes@,
            r matches Err(e) ==> e == Error::Sig,
    {
        if !signature_parses(bytes) {
            return Err(Error::Sig);
        }
        let mut out = [0u8; 64];
        let mut i: usize = 0;
        while i < 64
            invariant
                i <= 64,
                bytes@.len() == 64,
                forall|j: int| 0 <= j < i ==> out[j] == bytes@[j],
            decreases 64 - i,
        {
            out[i] = bytes[i];
            i += 1;
        }
        assert(out@ =~= bytes@);
        Ok(Signature { bytes: out })
    }

    /// The bytes of the signature.
    pub fn to_bytes(&self) -> (bytes: [u8; 64])
        ensures
            bytes@ == self@,
    {
        self.bytes
    }

    /// The bytes of the signature.
    pub fn as_bytes(&self) -> (bytes: &[u8; 64])
        ensures
            bytes@ == self@,
    {
        &self.bytes
    }
}

/// A keypair: the secret half that signs and the public half that names the
/// author.
#[derive(Debug)]
pub struct Identity {
    keypair: [u8; 64],
}

impl View for Identity {
    type V = Seq<u8>;

    closed spec fn view(&self) -> Seq<u8> {
        self.keypair@
    }
}

impl Identity {
    #[verifier::type_invariant]
    spec fn parses(&self) -> bool {
        keypair_valid(self.keypair@) && public_key_valid(self.keypair@.subrange(32, 64))
    }

    /// A fresh identity, drawn from the system's random numbers. Its public
    /// half belongs to its secret half.
    pub fn generate() -> (identity: Identity)
        ensures
            keypair_valid(identity@),
            halves_match(identity@),
    {
        Identity { keypair: ed25519_generate() }
    }

    /// The identity with the keypair `bytes` (secret half, then public half),
    /// if they encode one.
    pub fn from_bytes(bytes: &[u8]) -> (r: Result<Identity, Error>)
        ensures
            r is Ok <==> keypair_valid(bytes@),
            r matches Ok(identity) ==> identity@ == bytes@,
            r matches Err(e) ==> e == Error::Sig,
    {
        if !keypair_parses(bytes) {
            return Err(Error::Sig);
        }
        let mut keypair = [0u8; 64];
        let mut i: usize = 0;
        while i < 64
            invariant
                i <= 64,
                bytes@.len() == 64,
                forall|j: int| 0 <= j < i ==> keypair[j] == bytes@[j],
            decreases 64 - i,
        {
            keypair[i] = bytes[i];
            i += 1;
        }
        assert(keypair@ =~= bytes@);
        Ok(Identity { keypair })
    }

    /// The bytes of the keypair: secret half, then public half.
    pub fn to_bytes(&self) -> (bytes: [u8; 64])
        ensures
            bytes@ == self@,
    {
        self.keypair
    }

    /// Whether the public half of the keypair belongs to its secret half.
    /// Only then do the signatures of this identity verify under its
    /// author.
    pub fn is_matched(&self) -> (r: bool)
        ensures
            r == halves_match(self@),
    {
        let mut secret = [0u8; 32];
        let mut i: usize = 0;
        while i < 32
            invariant
                i <= 32,
                forall|j: int| 0 <= j < i ==> secret[j] == self.keypair[j],
            decreases 32 - i,
        {
            secret[i] = self.keypair[i];
            i += 1;
        }
        assert(secret@ =~= self.keypair@.subrange(0, 32));
        let public = ed25519_public(&secret);
        let author = self.author();
        let r = bytes_equal(public.as_slice(), author.key.as_slice());
        proof {
            assert(r ==> public@ =~= author.key@);
        }
        r
    }

    /// This identity's signature on `msg`. It verifies under the author of
    /// this identity where the two halves of the keypair belong together.
    pub fn sign(&self, msg: &[u8]) -> (sig: Signature)
        ensures
            sig@ == signature_of(self@, msg@),
            halves_match(self@) ==> signature_verifies(self@.subrange(32, 64), msg@, sig@),
    {
        proof {
            use_type_invariant(self);
        }
        Signature { bytes: ed25519_sign(self.keypair.as_slice(), msg) }
    }

    /// The author that this identity signs for: the public half of the
    /// keypair.
    pub fn author(&self) -> (author: Author)
        ensures
            author@ == self@.subrange(32, 64),
            public_key_valid(author@),
    {
        proof {
            use_type_invariant(self);
        }
        let mut key = [0u8; 32];
        let mut i: usize = 0;
        while i < 32
            invariant
                i <= 32,
                forall|j: int| 0 <= j < i ==> key[j] == self.keypair[j + 32],
            decreases 32 - i,
        {
            key[i] = self.keypair[i + 32];
            i += 1;
        }
        assert(key@ =~= self.keypair@.subrange(32, 64));
        Author { key }
    }
}

} // verus!
