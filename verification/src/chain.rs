//! The author chain: signed blocks that change the committee of authors,
//! each a delta on the committee before it.
use crate::author::{lemma_author_ext, lemma_signature_ext, Author, Signature};
use crate::authors::{list_of, listing, AuthorSet};
use crate::bytes::{lemma_join_split, push_u64_be, read_u64_be, u64_be, u64_from_be};
use crate::crypto::{digest, public_key_valid, signature_valid, signature_verifies};
use crate::error::Error;
use crate::hash::{lemma_hash_ext, Hasher};
use vstd::prelude::*;
use vstd::slice::slice_subrange;

verus! {

/// The first `n` byte strings, one after the other.
pub open spec fn concat(items: Seq<Seq<u8>>, n: int) -> Seq<u8>
    decreases n,
{
    if n <= 0 {
        Seq::empty()
    } else {
        concat(items, n - 1) + items[n - 1]
    }
}

/// The key bytes of a list of authors.
pub open spec fn author_keys(authors: Seq<Author>) -> Seq<Seq<u8>> {
    authors.map_values(|a: Author| a@)
}

/// The bytes of a list of signatures.
pub open spec fn signature_bytes(sigs: Seq<Signature>) -> Seq<Seq<u8>> {
    sigs.map_values(|s: Signature| s@)
}

/// The bytes that are hashed for a block: its parent, then its authors.
pub open spec fn block_preimage(parent: Seq<u8>, keys: Seq<Seq<u8>>) -> Seq<u8> {
    parent + concat(keys, keys.len() as int)
}

/// The bytes of a signed block: the parent, the number of authors as eight
/// bytes, most significant first, the authors, the number of signatures
/// likewise, and the signatures.
pub open spec fn signed_block_bytes(parent: crate::hash::Hash, authors: Seq<Author>, sigs: Seq<Signature>) -> Seq<
    u8,
> {
    parent@ + u64_be(authors.len() as u64) + concat(author_keys(authors), authors.len() as int)
        + u64_be(sigs.len() as u64) + concat(signature_bytes(sigs), sigs.len() as int)
}

/// The number of signatures that a block needs from a committee of `n`: the
/// members that are left when two thirds are taken away.
pub open spec fn threshold_of_signatures(n: int) -> int {
    n - n * 2 / 3
}

/// The number of signatures that a block needs from a committee of `n`.
pub fn signature_threshold(n: usize) -> (t: usize)
    ensures
        t == threshold_of_signatures(n as int),
{
    let wide: u128 = n as u128;
    (wide - wide * 2 / 3) as usize
}

/// Whether one of the signatures is that of the author with the key `key`
/// on `msg`.
pub open spec fn signs(key: Seq<u8>, msg: Seq<u8>, sigs: Seq<Seq<u8>>) -> bool {
    exists|j: int| 0 <= j < sigs.len() && signature_verifies(key, msg, #[trigger] sigs[j])
}

/// How many of the first `n` of the authors with the keys `keys` signed
/// `msg` with one of the signatures.
pub open spec fn signer_count(keys: Seq<Seq<u8>>, msg: Seq<u8>, sigs: Seq<Seq<u8>>, n: int) -> int
    decreases n,
{
    if n <= 0 {
        0
    } else {
        signer_count(keys, msg, sigs, n - 1) + (if signs(keys[n - 1], msg, sigs) {
            1int
        } else {
            0int
        })
    }
}

/// Whether enough members of the committee with the keys `keys` signed
/// `msg` with one of the signatures.
pub open spec fn enough_signers(keys: Seq<Seq<u8>>, msg: Seq<u8>, sigs: Seq<Seq<u8>>) -> bool {
    signer_count(keys, msg, sigs, keys.len() as int) >= threshold_of_signatures(keys.len() as int)
}

/// The set with the membership of the author with the key `key` changed.
pub open spec fn toggle(set: Set<Seq<u8>>, key: Seq<u8>) -> Set<Seq<u8>> {
    if set.contains(key) {
        set.remove(key)
    } else {
        set.insert(key)
    }
}

/// The set with the membership of each of the first `n` authors changed, in
/// order.
pub open spec fn toggled(set: Set<Seq<u8>>, keys: Seq<Seq<u8>>, n: int) -> Set<Seq<u8>>
    decreases n,
{
    if n <= 0 {
        set
    } else {
        toggle(toggled(set, keys, n - 1), keys[n - 1])
    }
}

/// Whether one of the signatures is that of `author` on `msg`.
pub fn signed_by(author: &Author, msg: &[u8], sigs: &[Signature]) -> (found: bool)
    ensures
        found == signs(author@, msg@, signature_bytes(sigs@)),
{
    let ghost bytes = signature_bytes(sigs@);
    let mut j: usize = 0;
    while j < sigs.len()
        invariant
            j <= sigs@.len(),
            bytes == signature_bytes(sigs@),
            forall|k: int| 0 <= k < j ==> !signature_verifies(author@, msg@, #[trigger] bytes[k]),
        decreases sigs@.len() - j,
    {
        if author.verify(msg, &sigs[j]) {
            assert(bytes[j as int] == sigs@[j as int]@);
            return true;
        }
        assert(bytes[j as int] == sigs@[j as int]@);
        j += 1;
    }
    false
}

/// How many members of `committee` signed `msg` with one of the signatures.
pub fn count_signers(committee: &AuthorSet, msg: &[u8], sigs: &[Signature]) -> (count: usize)
    requires
        committee.wf(),
    ensures
        count == signer_count(
            committee.keys(),
            msg@,
            signature_bytes(sigs@),
            committee.keys().len() as int,
        ),
{
    let mut count: usize = 0;
    let mut i: usize = 0;
    while i < committee.len()
        invariant
            committee.wf(),
            i <= committee.keys().len(),
            count <= i,
            count == signer_count(committee.keys(), msg@, signature_bytes(sigs@), i as int),
        decreases committee.keys().len() - i,
    {
        let author = committee.member(i);
        if signed_by(&author, msg, sigs) {
            count += 1;
        }
        i += 1;
    }
    count
}

/// A block: the digest of the block before it, and the authors whose
/// membership of the committee it changes.
#[derive(Debug, PartialEq, Eq)]
pub struct Block {
    /// The digest of the block before.
    pub parent: crate::hash::Hash,
    /// The authors whose membership changes, in the order of their bytes.
    pub authors: Vec<Author>,
}

impl Block {
    /// The block after `parent` that changes the membership of `authors`.
    pub fn new(parent: crate::hash::Hash, authors: Vec<Author>) -> (block: Block)
        ensures
            block.parent == parent,
            block.authors == authors,
    {
        Block { parent, authors }
    }

    /// The digest of the block: that of its parent followed by its authors.
    pub fn hash(&self) -> (hash: crate::hash::Hash)
        ensures
            hash@ == digest(block_preimage(self.parent@, author_keys(self.authors@))),
    {
        let mut hasher = Hasher::new();
        hasher.write(self.parent.bytes.as_slice());
        let ghost keys = author_keys(self.authors@);
        let mut i: usize = 0;
        assert(hasher@ =~= self.parent@ + concat(keys, 0));
        while i < self.authors.len()
            invariant
                i <= self.authors@.len(),
                keys == author_keys(self.authors@),
                hasher.written(),
                hasher@ == self.parent@ + concat(keys, i as int),
            decreases self.authors@.len() - i,
        {
            hasher.write(self.authors[i].as_bytes().as_slice());
            assert(hasher@ =~= self.parent@ + concat(keys, i + 1));
            i += 1;
        }
        assert(hasher@ == block_preimage(self.parent@, keys));
        hasher.sum()
    }
}

/// A block with the signatures that the committee gave it.
#[derive(Debug, PartialEq, Eq)]
pub struct SignedBlock {
    /// The block.
    pub block: Block,
    /// The signatures on the digest of the block.
    pub signatures: Vec<Signature>,
}

impl SignedBlock {
    /// The block `block` with the signatures `signatures`.
    pub fn new(block: Block, signatures: Vec<Signature>) -> (out: SignedBlock)
        ensures
            out.block == block,
            out.signatures == signatures,
    {
        SignedBlock { block, signatures }
    }

    /// The bytes of the signed block.
    pub open spec fn bytes(&self) -> Seq<u8> {
        signed_block_bytes(self.block.parent, self.block.authors@, self.signatures@)
    }

    /// Whether the committee accepts the block: enough of its members signed
    /// the digest of the block.
    pub open spec fn valid_for(&self, committee: Set<Seq<u8>>) -> bool {
        accepts(
            committee,
            digest(block_preimage(self.block.parent@, author_keys(self.block.authors@))),
            signature_bytes(self.signatures@),
        )
    }

    /// Checks the block against the committee `authors` and applies it. The
    /// block is refused, and the committee left as it was, unless as many
    /// members signed its digest as the committee's size asks for.
    /// Otherwise the membership of each author of the block is changed, and
    /// the bytes of the signed block come back.
    pub fn validate_and_apply(self, authors: &mut AuthorSet) -> (r: Result<Vec<u8>, Error>)
        requires
            old(authors).wf(),
        ensures
            final(authors).wf(),
            r is Ok <==> self.valid_for(old(authors)@),
            r matches Err(e) ==> e == Error::InvalidBlock && *final(authors) == *old(authors),
            r matches Ok(bytes) ==> bytes@ == self.bytes() && final(authors)@ == toggled(
                old(authors)@,
                author_keys(self.block.authors@),
                self.block.authors@.len() as int,
            ),
    {
        let threshold = signature_threshold(authors.len());
        let hash = self.block.hash();
        let count = count_signers(authors, hash.bytes.as_slice(), self.signatures.as_slice());
        proof {
            lemma_accepts(*authors, hash@, signature_bytes(self.signatures@));
        }
        if count < threshold {
            return Err(Error::InvalidBlock);
        }
        let mut i: usize = 0;
        while i < self.block.authors.len()
            invariant
                authors.wf(),
                i <= self.block.authors@.len(),
                authors@ == toggled(old(authors)@, author_keys(self.block.authors@), i as int),
            decreases self.block.authors@.len() - i,
        {
            let author = self.block.authors[i];
            if authors.contains(&author) {
                authors.remove(&author);
            } else {
                authors.insert(author);
            }
            i += 1;
        }
        Ok(self.serialize())
    }

    /// The bytes of the signed block.
    pub fn serialize(&self) -> (out: Vec<u8>)
        ensures
            out@ == self.bytes(),
    {
        let mut out: Vec<u8> = Vec::new();
        out.extend_from_slice(self.block.parent.bytes.as_slice());
        push_u64_be(&mut out, self.block.authors.len() as u64);
        let ghost head = out@;
        let ghost keys = author_keys(self.block.authors@);
        let mut i: usize = 0;
        assert(out@ =~= head + concat(keys, 0));
        while i < self.block.authors.len()
            invariant
                i <= self.block.authors@.len(),
                keys == author_keys(self.block.authors@),
                out@ == head + concat(keys, i as int),
            decreases self.block.authors@.len() - i,
        {
            out.extend_from_slice(self.block.authors[i].as_bytes().as_slice());
            assert(out@ =~= head + concat(keys, i + 1));
            i += 1;
        }
        push_u64_be(&mut out, self.signatures.len() as u64);
        let ghost middle = out@;
        let ghost sigs = signature_bytes(self.signatures@);
        let mut j: usize = 0;
        assert(out@ =~= middle + concat(sigs, 0));
        while j < self.signatures.len()
            invariant
                j <= self.signatures@.len(),
                sigs == signature_bytes(self.signatures@),
                out@ == middle + concat(sigs, j as int),
            decreases self.signatures@.len() - j,
        {
            out.extend_from_slice(self.signatures[j].as_bytes().as_slice());
            assert(out@ =~= middle + concat(sigs, j + 1));
            j += 1;
        }
        assert(out@ =~= self.bytes());
        out
    }
}


/// The number written at `at`, as eight bytes, most significant first.
pub open spec fn count_at(buf: Seq<u8>, at: int) -> int {
    u64_from_be(buf.subrange(at, at + 8)) as int
}

/// Where the signatures of a signed block begin, behind their number.
pub open spec fn signatures_at(buf: Seq<u8>) -> int {
    48 + 32 * count_at(buf, 32)
}

/// Whether `buf` is long enough for the parent, the authors and the
/// signatures that it announces.
pub open spec fn framed_block(buf: Seq<u8>) -> bool {
    &&& buf.len() >= 40
    &&& signatures_at(buf) <= buf.len()
    &&& signatures_at(buf) + 64 * count_at(buf, signatures_at(buf) - 8) <= buf.len()
}

/// The bytes of the `i`-th author of a signed block.
pub open spec fn author_at(buf: Seq<u8>, i: int) -> Seq<u8> {
    buf.subrange(40 + 32 * i, 72 + 32 * i)
}

/// The bytes of the `j`-th signature of a signed block.
pub open spec fn signature_at(buf: Seq<u8>, j: int) -> Seq<u8> {
    buf.subrange(signatures_at(buf) + 64 * j, signatures_at(buf) + 64 * j + 64)
}

/// Whether `buf` holds a signed block: it is long enough, and its authors
/// and signatures are valid encodings.
pub open spec fn holds_block(buf: Seq<u8>) -> bool {
    &&& framed_block(buf)
    &&& forall|i: int| 0 <= i < count_at(buf, 32) ==> public_key_valid(#[trigger] author_at(buf, i))
    &&& forall|j: int|
        0 <= j < count_at(buf, signatures_at(buf) - 8) ==> signature_valid(
            #[trigger] signature_at(buf, j),
        )
}

/// Whether `block` is the signed block that `buf` holds.
pub open spec fn block_of(buf: Seq<u8>, block: SignedBlock) -> bool {
    &&& block.block.parent@ == buf.subrange(0, 32)
    &&& block.block.authors@.len() == count_at(buf, 32)
    &&& forall|i: int|
        0 <= i < block.block.authors@.len() ==> (#[trigger] block.block.authors@[i])@ == author_at(
            buf,
            i,
        )
    &&& block.signatures@.len() == count_at(buf, signatures_at(buf) - 8)
    &&& forall|j: int|
        0 <= j < block.signatures@.len() ==> (#[trigger] block.signatures@[j])@ == signature_at(
            buf,
            j,
        )
}

impl SignedBlock {
    /// The signed block that `buf` holds. Bytes that end before the block
    /// does are refused as an invalid block, bytes that are no public key or
    /// no signature as such.
    pub fn deserialize(buf: &[u8]) -> (r: Result<SignedBlock, Error>)
        ensures
            r is Ok <==> holds_block(buf@),
            r matches Ok(block) ==> block_of(buf@, block),
            r matches Err(e) ==> e == (if framed_block(buf@) {
                Error::Sig
            } else {
                Error::InvalidBlock
            }),
    {
        let len = buf.len();
        if len < 40 {
            return Err(Error::InvalidBlock);
        }
        let parent = crate::hash::Hash::from_bytes(slice_subrange(buf, 0, 32));
        let n = read_u64_be(buf, 32);
        if n > ((len - 40) / 32) as u64 {
            return Err(Error::InvalidBlock);
        }
        let n = n as usize;
        let sigs_at = 40 + 32 * n;
        if len - sigs_at < 8 {
            return Err(Error::InvalidBlock);
        }
        let m = read_u64_be(buf, sigs_at);
        let start = sigs_at + 8;
        if m > ((len - start) / 64) as u64 {
            return Err(Error::InvalidBlock);
        }
        let m = m as usize;
        assert(framed_block(buf@));
        let mut authors: Vec<Author> = Vec::new();
        let mut i: usize = 0;
        while i < n
            invariant
                i <= n,
                len == buf@.len(),
                framed_block(buf@),
                n == count_at(buf@, 32),
                40 + 32 * n <= buf@.len(),
                authors@.len() == i,
                forall|k: int| 0 <= k < i ==> (#[trigger] authors@[k])@ == author_at(buf@, k),
                forall|k: int| 0 <= k < i ==> public_key_valid(#[trigger] author_at(buf@, k)),
            decreases n - i,
        {
            let at = 40 + 32 * i;
            match Author::from_bytes(slice_subrange(buf, at, at + 32)) {
                Ok(author) => authors.push(author),
                Err(e) => {
                    assert(!public_key_valid(author_at(buf@, i as int)));
                    return Err(Error::Sig);
                },
            }
            i += 1;
        }
        let mut signatures: Vec<Signature> = Vec::new();
        let mut j: usize = 0;
        while j < m
            invariant
                j <= m,
                len == buf@.len(),
                framed_block(buf@),
                forall|k: int| 0 <= k < n ==> public_key_valid(#[trigger] author_at(buf@, k)),
                n == count_at(buf@, 32),
                start == signatures_at(buf@),
                m == count_at(buf@, signatures_at(buf@) - 8),
                start + 64 * m <= buf@.len(),
                signatures@.len() == j,
                forall|k: int|
                    0 <= k < j ==> (#[trigger] signatures@[k])@ == signature_at(buf@, k),
                forall|k: int| 0 <= k < j ==> signature_valid(#[trigger] signature_at(buf@, k)),
            decreases m - j,
        {
            let at = start + 64 * j;
            match Signature::from_bytes(slice_subrange(buf, at, at + 64)) {
                Ok(sig) => signatures.push(sig),
                Err(e) => {
                    assert(!signature_valid(signature_at(buf@, j as int)));
                    return Err(Error::Sig);
                },
            }
            j += 1;
        }
        Ok(SignedBlock { block: Block { parent, authors }, signatures })
    }
}

/// Byte strings of one size, written one after the other, lie at the
/// multiples of that size.
pub proof fn lemma_concat(items: Seq<Seq<u8>>, size: int, n: int, i: int)
    requires
        0 <= i < n <= items.len(),
        0 < size,
        forall|k: int| 0 <= k < items.len() ==> (#[trigger] items[k]).len() == size,
    ensures
        concat(items, n).len() == size * n,
        concat(items, n).subrange(size * i, size * i + size) == items[i],
    decreases n,
{
    lemma_concat_len(items, size, n);
    lemma_concat_len(items, size, n - 1);
    assert(size * n == size * (n - 1) + size) by (nonlinear_arith);
    if i == n - 1 {
        assert(concat(items, n).subrange(size * i, size * i + size) =~= items[i]);
    } else {
        lemma_concat(items, size, n - 1, i);
        assert(size * i + size <= size * (n - 1)) by (nonlinear_arith)
            requires
                i < n - 1,
                size > 0,
        ;
        assert(concat(items, n).subrange(size * i, size * i + size) =~= concat(
            items,
            n - 1,
        ).subrange(size * i, size * i + size));
    }
}

/// Byte strings of one size, written one after the other, take that size
/// each.
pub proof fn lemma_concat_len(items: Seq<Seq<u8>>, size: int, n: int)
    requires
        0 <= n <= items.len(),
        forall|k: int| 0 <= k < items.len() ==> (#[trigger] items[k]).len() == size,
    ensures
        concat(items, n).len() == size * n,
    decreases n,
{
    if n > 0 {
        lemma_concat_len(items, size, n - 1);
        assert(size * n == size * (n - 1) + size) by (nonlinear_arith);
    } else {
        assert(size * 0 == 0) by (nonlinear_arith);
    }
}

/// The bytes of a signed block hold that block: read back, they give its
/// parent, authors and signatures.
pub proof fn lemma_block_bytes(block: SignedBlock)
    requires
        block.block.authors@.len() <= u64::MAX,
        block.signatures@.len() <= u64::MAX,
        forall|i: int|
            0 <= i < block.block.authors@.len() ==> public_key_valid(
                (#[trigger] block.block.authors@[i])@,
            ),
        forall|j: int|
            0 <= j < block.signatures@.len()
                ==> signature_valid((#[trigger] block.signatures@[j])@),
    ensures
        holds_block(block.bytes()),
        block_of(block.bytes(), block),
{
    let buf = block.bytes();
    let parent = block.block.parent;
    let authors = block.block.authors@;
    let sigs = block.signatures@;
    let n = authors.len() as int;
    let m = sigs.len() as int;
    let keys = author_keys(authors);
    let sbytes = signature_bytes(sigs);
    lemma_hash_ext(parent, parent);
    assert forall|k: int| 0 <= k < keys.len() implies (#[trigger] keys[k]).len() == 32 by {
        lemma_author_ext(authors[k], authors[k]);
    }
    assert forall|k: int| 0 <= k < sbytes.len() implies (#[trigger] sbytes[k]).len() == 64 by {
        lemma_signature_ext(sigs[k], sigs[k]);
    }
    lemma_concat_len(keys, 32, n);
    lemma_concat_len(sbytes, 64, m);
    let body = concat(keys, n);
    let tail = concat(sbytes, m);
    assert(buf == parent@ + u64_be(n as u64) + body + u64_be(m as u64) + tail);
    assert(buf.len() == 48 + 32 * n + 64 * m);
    assert(buf.subrange(0, 32) =~= parent@);
    assert(buf.subrange(32, 40) =~= u64_be(n as u64));
    lemma_join_split(n as u64);
    assert(count_at(buf, 32) == n);
    assert(buf.subrange(40 + 32 * n, 48 + 32 * n) =~= u64_be(m as u64));
    lemma_join_split(m as u64);
    assert(count_at(buf, signatures_at(buf) - 8) == m);
    assert forall|i: int| 0 <= i < n implies author_at(buf, i) == authors[i]@ by {
        lemma_concat(keys, 32, n, i);
        assert(author_at(buf, i) =~= body.subrange(32 * i, 32 * i + 32));
    }
    assert forall|j: int| 0 <= j < m implies signature_at(buf, j) == sigs[j]@ by {
        lemma_concat(sbytes, 64, m, j);
        assert(signature_at(buf, j) =~= tail.subrange(64 * j, 64 * j + 64));
    }
    assert forall|i: int| 0 <= i < count_at(buf, 32) implies public_key_valid(
        #[trigger] author_at(buf, i),
    ) by {
        assert(author_at(buf, i) == authors[i]@);
    }
    assert forall|j: int| 0 <= j < count_at(buf, signatures_at(buf) - 8) implies signature_valid(
        #[trigger] signature_at(buf, j),
    ) by {
        assert(signature_at(buf, j) == sigs[j]@);
    }
}


/// The members of a committee that signed `msg` with one of the signatures.
pub open spec fn signers(committee: Set<Seq<u8>>, msg: Seq<u8>, sigs: Seq<Seq<u8>>) -> Set<Seq<u8>> {
    committee.filter(|key: Seq<u8>| signs(key, msg, sigs))
}

/// Whether a committee accepts `msg` with the signatures: as many of its
/// members signed as are left when two thirds of the committee are taken
/// away.
pub open spec fn accepts(committee: Set<Seq<u8>>, msg: Seq<u8>, sigs: Seq<Seq<u8>>) -> bool {
    signers(committee, msg, sigs).len() >= threshold_of_signatures(committee.len() as int)
}

/// Counting the signers along the list of a committee's keys counts the
/// members that signed.
pub proof fn lemma_signer_count(keys: Seq<Seq<u8>>, msg: Seq<u8>, sigs: Seq<Seq<u8>>, n: int)
    requires
        keys.no_duplicates(),
        0 <= n <= keys.len(),
    ensures
        signers(keys.subrange(0, n).to_set(), msg, sigs).finite(),
        signer_count(keys, msg, sigs, n) == signers(keys.subrange(0, n).to_set(), msg, sigs).len(),
    decreases n,
{
    broadcast use vstd::set::group_set_axioms;

    let f = |key: Seq<u8>| signs(key, msg, sigs);
    let cur = keys.subrange(0, n).to_set();
    vstd::seq_lib::seq_to_set_is_finite(keys.subrange(0, n));
    cur.lemma_len_filter(f);
    if n == 0 {
        assert(cur =~= Set::<Seq<u8>>::empty());
        assert(signers(cur, msg, sigs) =~= Set::<Seq<u8>>::empty());
    } else {
        lemma_signer_count(keys, msg, sigs, n - 1);
        let prev = keys.subrange(0, n - 1).to_set();
        let x = keys[n - 1];
        assert(keys.subrange(0, n) =~= keys.subrange(0, n - 1).push(x));
        keys.subrange(0, n - 1).lemma_push_to_set_commute(x);
        assert(cur =~= prev.insert(x));
        assert(!prev.contains(x)) by {
            let front = keys.subrange(0, n - 1);
            if front.contains(x) {
                let j = choose|j: int| 0 <= j < front.len() && #[trigger] front[j] == x;
                assert(keys[j] == keys[n - 1]);
            }
        }
        vstd::seq_lib::seq_to_set_is_finite(keys.subrange(0, n - 1));
        prev.lemma_len_filter(f);
        if signs(x, msg, sigs) {
            assert(signers(cur, msg, sigs) =~= signers(prev, msg, sigs).insert(x));
        } else {
            assert(signers(cur, msg, sigs) =~= signers(prev, msg, sigs));
        }
    }
}

/// A committee accepts what enough of the members on its list signed.
pub proof fn lemma_accepts(committee: AuthorSet, msg: Seq<u8>, sigs: Seq<Seq<u8>>)
    requires
        committee.wf(),
    ensures
        accepts(committee@, msg, sigs) == enough_signers(committee.keys(), msg, sigs),
{
    committee.lemma_card();
    let keys = committee.keys();
    lemma_signer_count(keys, msg, sigs, keys.len() as int);
    assert(keys.subrange(0, keys.len() as int) =~= keys);
}


/// The key under which the digest of the block after `hash` is filed: the
/// text `lookup::` followed by `hash`.
pub open spec fn lookup_key(hash: Seq<u8>) -> Seq<u8> {
    seq![108u8, 111u8, 111u8, 107u8, 117u8, 112u8, 58u8, 58u8] + hash
}

/// The key under which the digest of the block after `hash` is filed.
pub fn lookup(hash: &crate::hash::Hash) -> (key: Vec<u8>)
    ensures
        key@ == lookup_key(hash@),
{
    let mut key: Vec<u8> = Vec::new();
    key.push(108u8);
    key.push(111u8);
    key.push(111u8);
    key.push(107u8);
    key.push(117u8);
    key.push(112u8);
    key.push(58u8);
    key.push(58u8);
    key.extend_from_slice(hash.bytes.as_slice());
    assert(key@ =~= lookup_key(hash@));
    key
}

/// Collects the authors whose membership the next block is to change.
#[derive(Debug)]
pub struct BlockBuilder {
    /// The digest of the block before the next.
    pub parent: crate::hash::Hash,
    /// The authors whose membership is to change.
    pub authors: AuthorSet,
}

impl BlockBuilder {
    /// A builder for the block after `parent`.
    pub fn new(parent: crate::hash::Hash) -> (out: BlockBuilder)
        ensures
            out.parent == parent,
            out.authors.wf(),
            out.authors@ == Set::<Seq<u8>>::empty(),
            out.authors.keys().len() == 0,
    {
        BlockBuilder { parent, authors: AuthorSet::new() }
    }

    /// A builder for the first block, which makes `authors` the committee.
    pub fn genesis(authors: AuthorSet) -> (out: BlockBuilder)
        ensures
            out.parent@ == crate::hash::zero_hash(),
            out.authors == authors,
    {
        BlockBuilder { parent: crate::hash::Hash::genesis(), authors }
    }

    /// The number of authors collected.
    pub fn len(&self) -> (n: usize)
        ensures
            n == self.authors.keys().len(),
    {
        self.authors.len()
    }

    /// Collects one more author.
    pub fn insert(&mut self, author: Author)
        requires
            old(self).authors.wf(),
        ensures
            final(self).authors.wf(),
            final(self).parent == old(self).parent,
            final(self).authors@ == old(self).authors@.insert(author@),
    {
        self.authors.insert(author);
    }

    /// Proposes the block of the authors collected, and starts to collect
    /// for the block after it.
    pub fn to_proposed(&mut self) -> (out: ProposedBlock)
        requires
            old(self).authors.wf(),
        ensures
            final(self).authors.wf(),
            final(self).authors@ == Set::<Seq<u8>>::empty(),
            final(self).authors.keys().len() == 0,
            final(self).parent == out.hash,
            out.wf(),
            out.block.parent == old(self).parent,
            author_keys(out.block.authors@) == old(self).authors.keys(),
            out.signatures@.len() == 0,
            out.signees@ == Set::<Seq<u8>>::empty(),
    {
        let authors = self.authors.to_vec();
        assert(author_keys(authors@) =~= self.authors.keys());
        self.authors.clear();
        let block = Block::new(self.parent, authors);
        let proposed = ProposedBlock::new(block);
        self.parent = proposed.hash;
        proposed
    }
}

/// A block that waits for the signatures of the committee.
#[derive(Debug)]
pub struct ProposedBlock {
    /// The block.
    pub block: Block,
    /// The digest of the block.
    pub hash: crate::hash::Hash,
    /// The authors that signed.
    pub signees: AuthorSet,
    /// Their signatures, in the order in which they came.
    pub signatures: Vec<Signature>,
}

impl ProposedBlock {
    /// The invariant: the digest is that of the block.
    pub open spec fn wf(&self) -> bool {
        &&& self.signees.wf()
        &&& self.hash@
            == digest(block_preimage(self.block.parent@, author_keys(self.block.authors@)))
    }

    /// The proposal of `block`, without signatures.
    pub fn new(block: Block) -> (out: ProposedBlock)
        ensures
            out.wf(),
            out.block == block,
            out.signatures@.len() == 0,
            out.signees@ == Set::<Seq<u8>>::empty(),
    {
        let hash = block.hash();
        ProposedBlock { hash, block, signees: AuthorSet::new(), signatures: Vec::new() }
    }

    /// Whether the proposal takes the signature `sig` of `author`: the
    /// author has not signed yet, and the signature is theirs on the digest
    /// of the block.
    pub open spec fn takes(&self, author: Author, sig: Signature) -> bool {
        !self.signees@.contains(author@) && signature_verifies(author@, self.hash@, sig@)
    }

    /// Adds the signature `sig` of `author`, unless the author signed
    /// already or the signature is not theirs on the digest of the block.
    pub fn add_sig(&mut self, author: Author, sig: Signature)
        requires
            old(self).wf(),
        ensures
            final(self).wf(),
            final(self).block == old(self).block,
            final(self).hash == old(self).hash,
            old(self).takes(author, sig) ==> final(self).signees@ == old(self).signees@.insert(
                author@,
            ) && final(self).signatures@ == old(self).signatures@.push(sig),
            !old(self).takes(author, sig) ==> *final(self) == *old(self),
    {
        if self.signees.contains(&author) {
            return ;
        }
        if !author.verify(self.hash.bytes.as_slice(), &sig) {
            return ;
        }
        self.signees.insert(author);
        self.signatures.push(sig);
    }

    /// The number of signatures.
    pub fn len(&self) -> (n: usize)
        ensures
            n == self.signatures@.len(),
    {
        self.signatures.len()
    }

    /// The digest of the block, and the block with its signatures.
    pub fn into_signed_block(self) -> (out: (crate::hash::Hash, SignedBlock))
        ensures
            out.0 == self.hash,
            out.1.block == self.block,
            out.1.signatures == self.signatures,
    {
        (self.hash, SignedBlock { block: self.block, signatures: self.signatures })
    }
}

/// The keys of the authors of the signed block that `buf` holds.
pub open spec fn block_keys(buf: Seq<u8>) -> Seq<Seq<u8>> {
    Seq::new(count_at(buf, 32) as nat, |i: int| author_at(buf, i))
}

/// The signatures of the signed block that `buf` holds.
pub open spec fn block_sigs(buf: Seq<u8>) -> Seq<Seq<u8>> {
    Seq::new(count_at(buf, signatures_at(buf) - 8) as nat, |j: int| signature_at(buf, j))
}

/// Whether the committee accepts the signed block that `buf` holds.
pub open spec fn stored_block_accepted(committee: Set<Seq<u8>>, buf: Seq<u8>) -> bool {
    holds_block(buf) && accepts(
        committee,
        digest(block_preimage(buf.subrange(0, 32), block_keys(buf))),
        block_sigs(buf),
    )
}

/// Where a replay of the chain stands: the committee, the digest of the
/// last block, and the number of blocks.
pub struct ChainState {
    pub committee: Set<Seq<u8>>,
    pub last: Seq<u8>,
    pub block: int,
}

/// The state before the first block.
pub open spec fn genesis_state() -> ChainState {
    ChainState { committee: Set::empty(), last: crate::hash::zero_hash(), block: 0 }
}

/// Replays the chain that `map` holds, from `state` on, for at most `fuel`
/// blocks. The digest of the block after the last is filed under the
/// lookup key of the last; the block itself is filed under its digest. The
/// replay ends where nothing is filed for the last block. It fails where a
/// block is missing or malformed, where the committee before it does not
/// accept it, or where more than `fuel` blocks follow.
pub open spec fn replay(map: Map<Seq<u8>, Seq<u8>>, state: ChainState, fuel: nat) -> Option<ChainState>
    decreases fuel,
{
    if !map.dom().contains(lookup_key(state.last)) {
        Some(state)
    } else if fuel == 0 {
        None
    } else {
        let next = map[lookup_key(state.last)];
        if next.len() != 32 || !map.dom().contains(next) || !stored_block_accepted(
            state.committee,
            map[next],
        ) {
            None
        } else {
            let keys = block_keys(map[next]);
            replay(
                map,
                ChainState {
                    committee: toggled(state.committee, keys, keys.len() as int),
                    last: next,
                    block: state.block + 1,
                },
                (fuel - 1) as nat,
            )
        }
    }
}


/// The author chain: the blocks that were committed, the committee that
/// they leave, and the block that is proposed next.
#[derive(Debug)]
pub struct AuthorChain {
    tree: crate::tree::Tree,
    authors: AuthorSet,
    builder: BlockBuilder,
    proposed: Option<ProposedBlock>,
    block: u64,
}

/// The authors and signatures of a block that was read from `buf` are
/// those that `buf` holds.
pub proof fn lemma_block_of(buf: Seq<u8>, block: SignedBlock)
    requires
        holds_block(buf),
        block_of(buf, block),
    ensures
        author_keys(block.block.authors@) == block_keys(buf),
        signature_bytes(block.signatures@) == block_sigs(buf),
{
    assert(author_keys(block.block.authors@) =~= block_keys(buf));
    assert(signature_bytes(block.signatures@) =~= block_sigs(buf));
}

impl AuthorChain {
    /// What the chain has filed.
    pub closed spec fn filed(&self) -> Map<Seq<u8>, Seq<u8>> {
        self.tree@
    }

    /// The entries that the chain has filed, in the order of their keys.
    pub closed spec fn entries(&self) -> Seq<(Seq<u8>, Seq<u8>)> {
        self.tree.pairs()
    }

    /// The keys of the committee.
    pub closed spec fn committee(&self) -> Set<Seq<u8>> {
        self.authors@
    }

    /// The keys of the committee, ascending.
    pub open spec fn committee_list(&self) -> Seq<Seq<u8>> {
        list_of(self.committee())
    }

    /// The keys of the authors whose membership the next proposal is to
    /// change.
    pub closed spec fn pending(&self) -> Set<Seq<u8>> {
        self.builder.authors@
    }

    /// The digest of the block that the next proposal follows.
    pub closed spec fn tip(&self) -> crate::hash::Hash {
        self.builder.parent
    }

    /// The block that is proposed.
    pub closed spec fn proposal(&self) -> Option<ProposedBlock> {
        self.proposed
    }

    /// The number of the current block.
    pub closed spec fn block_number(&self) -> u64 {
        self.block
    }

    /// The invariant of the chain.
    pub closed spec fn wf(&self) -> bool {
        &&& self.tree.wf()
        &&& self.authors.wf()
        &&& self.builder.authors.wf()
        &&& self.proposed matches Some(p) ==> p.wf()
    }

    /// Replays the chain that `tree` holds: from no committee and the
    /// all-zero digest, each block is looked up, checked against the
    /// committee before it, and applied. Any failure is an invalid state.
    pub fn from_tree(tree: crate::tree::Tree) -> (r: Result<AuthorChain, Error>)
        requires
            tree.wf(),
        ensures
            r is Ok <==> replay(tree@, genesis_state(), tree.pairs().len()) is Some,
            r matches Err(e) ==> e == Error::InvalidState,
            r matches Ok(chain) ==> {
                let end = replay(tree@, genesis_state(), tree.pairs().len()).unwrap();
                &&& chain.wf()
                &&& chain.filed() == tree@
                &&& chain.entries() == tree.pairs()
                &&& chain.committee() == end.committee
                &&& chain.tip()@ == end.last
                &&& chain.block_number() == end.block
                &&& chain.pending() == Set::<Seq<u8>>::empty()
                &&& chain.pending_list().len() == 0
                &&& chain.proposal() is None
                &&& chain.replays_to(chain.tip()@)
            },
    {
        let mut cur = crate::hash::Hash::genesis();
        let mut block: u64 = 0;
        let mut authors = AuthorSet::new();
        let mut fuel: usize = tree.len();
        let ghost map = tree@;
        let ghost all = tree.pairs().len();
        loop
            invariant
                tree.wf(),
                map == tree@,
                all == tree.pairs().len(),
                all <= usize::MAX,
                authors.wf(),
                block + fuel <= all,
                replay(map, genesis_state(), all) == replay(
                    map,
                    (ChainState { committee: authors@, last: cur@, block: block as int }),
                    fuel as nat,
                ),
            decreases fuel,
        {
            let key = lookup(&cur);
            let next = match tree.get(key.as_slice()) {
                None => {
                    proof {
                        crate::authors::lemma_list_of_empty();
                    }
                    return Ok(
                        AuthorChain {
                            tree,
                            authors,
                            builder: BlockBuilder::new(cur),
                            proposed: None,
                            block,
                        },
                    );
                },
                Some(next) => next,
            };
            if fuel == 0 || next.len() != 32 {
                return Err(Error::InvalidState);
            }
            let bytes = match tree.get(next.as_slice()) {
                None => {
                    return Err(Error::InvalidState);
                },
                Some(bytes) => bytes,
            };
            let signed = match SignedBlock::deserialize(bytes.as_slice()) {
                Err(_) => {
                    return Err(Error::InvalidState);
                },
                Ok(signed) => signed,
            };
            proof {
                lemma_block_of(bytes@, signed);
            }
            let parent = crate::hash::Hash::from_bytes(next.as_slice());
            match signed.validate_and_apply(&mut authors) {
                Err(_) => {
                    return Err(Error::InvalidState);
                },
                Ok(_) => {},
            }
            cur = parent;
            block += 1;
            fuel -= 1;
        }
    }

    /// The chain without blocks.
    pub fn empty() -> (out: AuthorChain)
        ensures
            out.wf(),
            out.entries().len() == 0,
            out.filed() == Map::<Seq<u8>, Seq<u8>>::empty(),
            out.committee() == Set::<Seq<u8>>::empty(),
            out.committee_list().len() == 0,
            out.pending() == Set::<Seq<u8>>::empty(),
            out.pending_list().len() == 0,
            out.tip()@ == crate::hash::zero_hash(),
            out.proposal() is None,
            out.block_number() == 0,
    {
        let out = AuthorChain {
            tree: crate::tree::Tree::new(),
            authors: AuthorSet::new(),
            builder: BlockBuilder::new(crate::hash::Hash::genesis()),
            proposed: None,
            block: 0,
        };
        proof {
            crate::authors::lemma_list_of_empty();
        }
        out
    }

    /// Starts the chain anew with the committee `genesis_authors`: all that
    /// was filed is dropped, and the first block, which makes them the
    /// committee, is filed under its digest, and its digest under the lookup
    /// key of the all-zero digest.
    pub fn genesis(&mut self, genesis_authors: AuthorSet)
        requires
            old(self).wf(),
            genesis_authors.wf(),
        ensures
            final(self).wf(),
            final(self).committee() == genesis_authors@,
            final(self).committee_list() == genesis_authors.keys(),
            final(self).block_number() == 1,
            final(self).pending() == Set::<Seq<u8>>::empty(),
            final(self).proposal() == old(self).proposal(),
            final(self).tip()@ == digest(
                block_preimage(crate::hash::zero_hash(), list_of(genesis_authors@)),
            ),
            final(self).filed() == Map::<Seq<u8>, Seq<u8>>::empty().insert(
                final(self).tip()@,
                genesis_bytes(list_of(genesis_authors@)),
            ).insert(lookup_key(crate::hash::zero_hash()), final(self).tip()@),
            crate::state_machine::all_keys(list_of(genesis_authors@)) && final(self).tip()@
                != crate::hash::zero_hash() ==> final(self).replays_to(final(self).tip()@),
    {
        self.builder = BlockBuilder::genesis(genesis_authors.duplicate());
        let proposed = self.builder.to_proposed();
        let (hash, block) = proposed.into_signed_block();
        self.tree.clear();
        let bytes = block.serialize();
        self.tree.insert(hash.bytes.as_slice(), bytes.as_slice());
        let zero = crate::hash::Hash::genesis();
        let key = lookup(&zero);
        self.tree.insert(key.as_slice(), hash.bytes.as_slice());
        self.authors = genesis_authors;
        self.block = 1;
        proof {
            assert(concat(signature_bytes(block.signatures@), 0) =~= Seq::<u8>::empty());
            assert(bytes@ =~= genesis_bytes(genesis_authors.keys()));
            let keys = genesis_authors.keys();
            genesis_authors.lemma_keys();
            crate::authors::lemma_list_of_empty();
            if crate::state_machine::all_keys(keys) && hash@ != crate::hash::zero_hash() {
                genesis_authors.lemma_card();
                assert(block.block.authors.len() == block.block.authors@.len());
                assert forall|i: int| 0 <= i < block.block.authors@.len() implies public_key_valid(
                    (#[trigger] block.block.authors@[i])@,
                ) by {
                    assert(keys[i] == block.block.authors@[i]@);
                }
                lemma_replay_genesis(block, hash);
                lemma_lists(*self);
                crate::tree::lemma_pairs_count(self.entries());
                lemma_lookup_key(crate::hash::zero_hash(), hash@);
                lemma_hash_ext(hash, hash);
                let one = Map::<Seq<u8>, Seq<u8>>::empty().insert(hash@, bytes@);
                assert(one.dom() =~= Set::<Seq<u8>>::empty().insert(hash@));
                assert(self.filed().dom() =~= one.dom().insert(
                    lookup_key(crate::hash::zero_hash()),
                ));
                assert(self.entries().len() == 2);
            }
        }
    }

    /// The digest of the first block.
    pub fn genesis_hash(&self) -> (r: Result<crate::hash::Hash, Error>)
        requires
            self.wf(),
        ensures
            r is Ok <==> (self.filed().dom().contains(lookup_key(crate::hash::zero_hash()))
                && self.filed()[lookup_key(crate::hash::zero_hash())].len() == 32),
            r matches Ok(h) ==> h@ == self.filed()[lookup_key(crate::hash::zero_hash())],
            r matches Err(e) ==> e == Error::InvalidState,
    {
        let zero = crate::hash::Hash::genesis();
        let key = lookup(&zero);
        match self.tree.get(key.as_slice()) {
            Some(hash) => {
                if hash.len() != 32 {
                    return Err(Error::InvalidState);
                }
                Ok(crate::hash::Hash::from_bytes(hash.as_slice()))
            },
            None => Err(Error::InvalidState),
        }
    }

    /// The digest of the block that is proposed.
    pub fn hash(&self) -> (out: Option<crate::hash::Hash>)
        ensures
            out == (match self.proposal() {
                Some(p) => Some(p.hash),
                None => None,
            }),
    {
        match &self.proposed {
            Some(p) => Some(p.hash),
            None => None,
        }
    }

    /// Asks that `author` join the committee with the next block. The
    /// request counts only where `block` is the number of the current block
    /// and the author is no member.
    pub fn add_author(&mut self, author: Author, block: u64)
        requires
            old(self).wf(),
        ensures
            final(self).wf(),
            final(self).filed() == old(self).filed(),
            final(self).entries() == old(self).entries(),
            final(self).committee() == old(self).committee(),
            final(self).committee_list() == old(self).committee_list(),
            final(self).tip() == old(self).tip(),
            final(self).proposal() == old(self).proposal(),
            final(self).block_number() == old(self).block_number(),
            final(self).pending() == (if block
                == old(self).block_number() && !old(self).committee().contains(author@) {
                old(self).pending().insert(author@)
            } else {
                old(self).pending()
            }),
    {
        if self.block != block {
            return ;
        }
        if !self.authors.contains(&author) {
            self.builder.insert(author);
        }
    }

    /// Asks that `author` leave the committee with the next block. The
    /// request counts only where `block` is the number of the current block
    /// and the author is a member.
    pub fn rem_author(&mut self, author: Author, block: u64)
        requires
            old(self).wf(),
        ensures
            final(self).wf(),
            final(self).filed() == old(self).filed(),
            final(self).entries() == old(self).entries(),
            final(self).committee() == old(self).committee(),
            final(self).committee_list() == old(self).committee_list(),
            final(self).tip() == old(self).tip(),
            final(self).proposal() == old(self).proposal(),
            final(self).block_number() == old(self).block_number(),
            final(self).pending() == (if block
                == old(self).block_number() && old(self).committee().contains(author@) {
                old(self).pending().insert(author@)
            } else {
                old(self).pending()
            }),
    {
        if self.block != block {
            return ;
        }
        if self.authors.contains(&author) {
            self.builder.insert(author);
        }
    }

    /// Adds the signature `sig` of `author` to the proposed block, where
    /// there is one that takes it.
    pub fn sign_block(&mut self, author: Author, sig: Signature)
        requires
            old(self).wf(),
        ensures
            final(self).wf(),
            final(self).filed() == old(self).filed(),
            final(self).entries() == old(self).entries(),
            final(self).committee() == old(self).committee(),
            final(self).committee_list() == old(self).committee_list(),
            final(self).tip() == old(self).tip(),
            final(self).pending() == old(self).pending(),
            final(self).block_number() == old(self).block_number(),
            old(self).proposal() is None ==> final(self).proposal() is None,
            old(self).proposal() matches Some(p) ==> final(self).proposal() matches Some(q) && {
                &&& q.block == p.block
                &&& q.hash == p.hash
                &&& p.takes(author, sig) ==> q.signees@ == p.signees@.insert(author@)
                    && q.signatures@ == p.signatures@.push(sig)
                &&& !p.takes(author, sig) ==> q == p
            },
    {
        match self.proposed.take() {
            Some(mut p) => {
                p.add_sig(author, sig);
                self.proposed = Some(p);
            },
            None => {},
        }
    }

    /// The committee.
    pub fn authors(&self) -> (out: &AuthorSet)
        ensures
            out@ == self.committee(),
            self.wf() ==> out.wf() && out.keys() == self.committee_list(),
    {
        proof {
            if self.wf() {
                self.authors.lemma_keys();
            }
        }
        &self.authors
    }

    /// The number of the current block.
    pub fn block(&self) -> (out: u64)
        ensures
            out == self.block_number(),
    {
        self.block
    }

    /// What the chain has filed.
    pub fn tree(&self) -> (out: &crate::tree::Tree)
        ensures
            out@ == self.filed(),
            out.pairs() == self.entries(),
            self.wf() ==> out.wf(),
    {
        &self.tree
    }
}

/// The bytes of the first block, which makes the authors with the keys
/// `keys` the committee: the all-zero parent, the keys behind their number,
/// and no signature.
pub open spec fn genesis_bytes(keys: Seq<Seq<u8>>) -> Seq<u8> {
    crate::hash::zero_hash() + u64_be(keys.len() as u64) + concat(keys, keys.len() as int)
        + u64_be(0)
}


/// The committee of a chain is finite and has as many members as its list.
pub proof fn lemma_committee(chain: AuthorChain)
    requires
        chain.wf(),
    ensures
        chain.committee().finite(),
        chain.committee().len() == chain.committee_list().len(),
{
    chain.authors.lemma_card();
    chain.authors.lemma_keys();
}

/// The lists of a chain hold what its sets hold: the committee's list holds
/// the committee, each member once and ascending, and so does the list of
/// the authors whose membership is to change. The entries ascend by their
/// keys, make the map of what is filed, and can be written: their number
/// and lengths fit in 64 bits. A block that is proposed has the digest of
/// its parent and authors.
pub proof fn lemma_lists(chain: AuthorChain)
    requires
        chain.wf(),
    ensures
        listing(chain.committee_list(), chain.committee()),
        listing(chain.pending_list(), chain.pending()),
        chain.pending() == Set::<Seq<u8>>::empty() <==> chain.pending_list().len() == 0,
        crate::tree::ascending(chain.entries()),
        crate::tree::map_of(chain.entries()) == chain.filed(),
        crate::dump::writable(chain.entries()),
        chain.proposal() matches Some(p) ==> p.wf(),
{
    chain.tree.lemma_sizes();
    chain.authors.lemma_keys();
    chain.builder.authors.lemma_keys();
    let list = chain.pending_list();
    if list.len() > 0 {
        assert(list.contains(list[0]));
    }
    if chain.pending() != Set::<Seq<u8>>::empty() {
        assert(!(chain.pending() =~= Set::<Seq<u8>>::empty()));
        let key = choose|key: Seq<u8>| chain.pending().contains(key);
        assert(list.contains(key));
    }
}

/// Whether every author of the proposed block is a public key and every
/// signature on it a signature, so that the block can be read back from
/// its bytes.
pub open spec fn proposal_parses(p: ProposedBlock) -> bool {
    &&& forall|i: int|
        0 <= i < p.block.authors@.len() ==> public_key_valid((#[trigger] p.block.authors@[i])@)
    &&& forall|j: int|
        0 <= j < p.signatures@.len() ==> signature_valid((#[trigger] p.signatures@[j])@)
}

/// Whether the proposed block of the chain `pre`, if it is committed, goes
/// on from the block with the digest `last`, can be read back, and has a
/// new digest: nothing is filed under it or under its lookup key, and it is
/// not `last`.
pub open spec fn proposal_follows(pre: AuthorChain, last: Seq<u8>) -> bool {
    pre.commits() ==> {
        let p = pre.proposal().unwrap();
        &&& p.block.parent@ == last
        &&& proposal_parses(p)
        &&& p.hash@ != last
        &&& !pre.filed().dom().contains(p.hash@)
        &&& !pre.filed().dom().contains(lookup_key(p.hash@))
        &&& pre.block_number() < u64::MAX
    }
}

/// A chain that replays still replays after a round began. Where the
/// chain `pre` replays to its committee and block number, with `last` the
/// digest of the last block filed, and the block that the round commits, if
/// any, follows `last`, then the chain `post` replays to its committee and
/// block number too, with the digest of the block committed as the last.
/// A proposal that goes on from a proposal that was dropped does not follow
/// the last block filed; of such a chain nothing is said.
pub proof fn lemma_round_replays(
    pre: AuthorChain,
    post: AuthorChain,
    given: (u64, Seq<Author>),
    last: Seq<u8>,
)
    requires
        pre.wf(),
        AuthorChain::round_started(pre, post, given),
        pre.replays_to(last),
        proposal_follows(pre, last),
    ensures
        post.replays_to(
            if pre.commits() {
                pre.proposal().unwrap().hash@
            } else {
                last
            },
        ),
{
    if pre.commits() {
        let p = pre.proposal().unwrap();
        let block = SignedBlock { block: p.block, signatures: p.signatures };
        let bytes = block.bytes();
        let n = pre.entries().len();
        let end = ChainState {
            committee: pre.committee(),
            last,
            block: pre.block_number() as int,
        };
        assert(p.block.authors.len() == p.block.authors@.len());
        assert(p.signatures.len() == p.signatures@.len());
        lemma_block_bytes(block);
        lemma_block_of(bytes, block);
        assert(bytes.subrange(0, 32) =~= p.block.parent@);
        assert(stored_block_accepted(pre.committee(), bytes));
        lemma_hash_ext(p.hash, p.hash);
        assert(crate::hash::zero_hash().len() == 32);
        lemma_replay_step(pre.filed(), genesis_state(), n, p.hash@, bytes);
        lemma_lists(pre);
        lemma_lists(post);
        crate::tree::lemma_pairs_count(pre.entries());
        crate::tree::lemma_pairs_count(post.entries());
        lemma_lookup_key(last, p.hash@);
        lemma_replay_end(pre.filed(), genesis_state(), n);
        let one = pre.filed().insert(p.hash@, bytes);
        assert(one.dom() =~= pre.filed().dom().insert(p.hash@));
        assert(post.filed().dom() =~= one.dom().insert(lookup_key(last)));
        assert(post.entries().len() == n + 2);
        lemma_replay_more(post.filed(), genesis_state(), n + 1, 1);
        assert(replay_next(end, p.hash@, bytes) == (ChainState {
            committee: post.committee(),
            last: p.hash@,
            block: post.block_number() as int,
        }));
    }
}

/// The number after `block`, or `block` where there is none.
pub open spec fn next_block(block: u64) -> u64 {
    if block < u64::MAX {
        (block + 1) as u64
    } else {
        block
    }
}

impl AuthorChain {
    /// The keys of the authors whose membership the next proposal is to
    /// change, ascending.
    pub open spec fn pending_list(&self) -> Seq<Seq<u8>> {
        list_of(self.pending())
    }

    /// Whether replaying what the chain has filed gives the committee and
    /// the block number that the chain has, with `last` the digest of the
    /// last block filed.
    pub open spec fn replays_to(&self, last: Seq<u8>) -> bool {
        replay(self.filed(), genesis_state(), self.entries().len()) == Some(
            (ChainState {
                committee: self.committee(),
                last,
                block: self.block_number() as int,
            }),
        )
    }

    /// Whether the proposed block is committed when a round begins: there
    /// is one, it has as many signatures as the committee's size asks for,
    /// and the committee accepts it.
    pub open spec fn commits(&self) -> bool {
        self.proposal() matches Some(p) && p.signatures@.len() >= threshold_of_signatures(
            self.committee().len() as int,
        ) && accepts(
            self.committee(),
            digest(block_preimage(p.block.parent@, author_keys(p.block.authors@))),
            signature_bytes(p.signatures@),
        )
    }

    /// Whether beginning a round took the chain from `pre` to `post` and
    /// gave the block number and committee `given`. The proposed block is
    /// committed where `pre.commits()`: the membership of its authors is
    /// changed, the block is filed under its digest and its digest under the
    /// lookup key of its parent, and the block number grows by one. A
    /// proposal that is not committed is dropped. Then the authors that were
    /// asked for since make the next proposal, where there are any.
    pub open spec fn round_started(pre: AuthorChain, post: AuthorChain, given: (u64, Seq<Author>)) -> bool {
        &&& post.wf()
        &&& given.0 == post.block_number()
        &&& author_keys(given.1) == post.committee_list()
        &&& if pre.commits() {
            let p = pre.proposal().unwrap();
            &&& post.committee() == toggled(
                pre.committee(),
                author_keys(p.block.authors@),
                p.block.authors@.len() as int,
            )
            &&& post.filed() == pre.filed().insert(
                p.hash@,
                signed_block_bytes(p.block.parent, p.block.authors@, p.signatures@),
            ).insert(lookup_key(p.block.parent@), p.hash@)
            &&& post.block_number() == next_block(pre.block_number())
        } else {
            &&& post.committee() == pre.committee()
            &&& post.committee_list() == pre.committee_list()
            &&& post.filed() == pre.filed()
            &&& post.entries() == pre.entries()
            &&& post.block_number() == pre.block_number()
        }
        &&& if pre.pending_list().len() > 0 {
            &&& post.pending() == Set::<Seq<u8>>::empty()
            &&& post.pending_list().len() == 0
            &&& post.proposal() matches Some(q) && {
                &&& q.block.parent == pre.tip()
                &&& author_keys(q.block.authors@) == pre.pending_list()
                &&& q.signatures@.len() == 0
                &&& q.signees@ == Set::<Seq<u8>>::empty()
                &&& post.tip() == q.hash
            }
        } else {
            &&& post.pending() == pre.pending()
            &&& post.pending_list() == pre.pending_list()
            &&& post.proposal() is None
            &&& post.tip() == pre.tip()
        }
    }

    /// Begins a round: commits the proposed block where the committee
    /// accepts it, proposes the next where changes were asked for, and gives
    /// the number of the current block and the committee in the order of
    /// the authors' bytes.
    pub fn start_round(&mut self) -> (given: (u64, Vec<Author>))
        requires
            old(self).wf(),
        ensures
            AuthorChain::round_started(*old(self), *final(self), (given.0, given.1@)),
    {
        let ghost pre = *self;
        proof {
            self.authors.lemma_card();
            self.authors.lemma_keys();
            self.builder.authors.lemma_keys();
        }
        match self.proposed.take() {
            Some(proposed) => {
                let threshold = signature_threshold(self.authors.len());
                if proposed.len() >= threshold {
                    let (hash, block) = proposed.into_signed_block();
                    let parent = block.block.parent;
                    match block.validate_and_apply(&mut self.authors) {
                        Ok(bytes) => {
                            self.tree.insert(hash.bytes.as_slice(), bytes.as_slice());
                            let key = lookup(&parent);
                            self.tree.insert(key.as_slice(), hash.bytes.as_slice());
                            if self.block < u64::MAX {
                                self.block += 1;
                            }
                        },
                        Err(_) => {},
                    }
                }
            },
            None => {},
        }
        if self.builder.len() > 0 {
            self.proposed = Some(self.builder.to_proposed());
        }
        let list = self.authors.to_vec();
        proof {
            self.authors.lemma_keys();
            self.builder.authors.lemma_keys();
            crate::authors::lemma_list_of_empty();
            assert(author_keys(list@) =~= self.authors.keys());
        }
        (self.block, list)
    }
}

impl crate::vote::RoundSource for AuthorChain {
    open spec fn ready(&self) -> bool {
        self.wf()
    }

    open spec fn started(pre: AuthorChain, post: AuthorChain, given: (u64, Seq<Author>)) -> bool {
        AuthorChain::round_started(pre, post, given)
    }

    fn start_round(&mut self) -> (given: (u64, Vec<Author>)) {
        AuthorChain::start_round(self)
    }
}

/// Changing the membership of each of the first `n` of the keys, none of
/// which occurs twice, leaves the members that are not among them and adds
/// those among them that were no members.
pub proof fn lemma_toggled(set: Set<Seq<u8>>, keys: Seq<Seq<u8>>, n: int)
    requires
        keys.no_duplicates(),
        0 <= n <= keys.len(),
    ensures
        forall|key: Seq<u8>|
            #[trigger] toggled(set, keys, n).contains(key) <==> (set.contains(key)
                != keys.subrange(0, n).contains(key)),
    decreases n,
{
    if n > 0 {
        lemma_toggled(set, keys, n - 1);
        let front = keys.subrange(0, n - 1);
        let x = keys[n - 1];
        if front.contains(x) {
            let j = choose|j: int| 0 <= j < front.len() && #[trigger] front[j] == x;
            assert(keys[j] == keys[n - 1]);
        }
        assert(keys.subrange(0, n) =~= front.push(x));
        let before = toggled(set, keys, n - 1);
        let all = front.push(x);
        assert(toggled(set, keys, n) == toggle(before, x));
        assert(all[n - 1] == x);
        assert(all.contains(x));
        assert forall|key: Seq<u8>|
            #[trigger] toggled(set, keys, n).contains(key) <==> (set.contains(key)
                != keys.subrange(0, n).contains(key)) by {
            assert(before.contains(key) <==> (set.contains(key) != front.contains(key)));
            if key == x {
                assert(!front.contains(key));
                assert(toggle(before, x).contains(key) == !before.contains(key));
            } else {
                assert(toggle(before, x).contains(key) == before.contains(key));
                if front.contains(key) {
                    let j = choose|j: int| 0 <= j < front.len() && #[trigger] front[j] == key;
                    assert(all[j] == key);
                }
                if all.contains(key) {
                    let j = choose|j: int| 0 <= j < all.len() && #[trigger] all[j] == key;
                    assert(front[j] == key);
                }
            }
        }
    }
}

/// The committee after a block whose authors are the list of the set
/// `changed`: the members that are not in `changed`, and the authors in
/// `changed` that were no members.
pub proof fn lemma_toggled_list(set: Set<Seq<u8>>, changed: Set<Seq<u8>>, keys: Seq<Seq<u8>>)
    requires
        listing(keys, changed),
    ensures
        forall|key: Seq<u8>|
            #[trigger] toggled(set, keys, keys.len() as int).contains(key) <==> (set.contains(key)
                != changed.contains(key)),
{
    assert forall|i: int, j: int| 0 <= i < keys.len() && 0 <= j < keys.len() && i != j implies keys[i]
        != keys[j] by {
        if i < j {
            crate::bytes::lemma_lex_asymmetric(keys[i], keys[j]);
        } else {
            crate::bytes::lemma_lex_asymmetric(keys[j], keys[i]);
        }
    }
    lemma_toggled(set, keys, keys.len() as int);
    assert(keys.subrange(0, keys.len() as int) =~= keys);
}

/// Changing the membership of authors that are all different, one after
/// the other, makes of the empty set the set of those authors.
pub proof fn lemma_toggled_fresh(keys: Seq<Seq<u8>>, n: int)
    requires
        keys.no_duplicates(),
        0 <= n <= keys.len(),
    ensures
        toggled(Set::empty(), keys, n) == keys.subrange(0, n).to_set(),
    decreases n,
{
    if n == 0 {
        assert(keys.subrange(0, 0).to_set() =~= Set::<Seq<u8>>::empty());
    } else {
        lemma_toggled_fresh(keys, n - 1);
        let front = keys.subrange(0, n - 1);
        let x = keys[n - 1];
        if front.contains(x) {
            let j = choose|j: int| 0 <= j < front.len() && #[trigger] front[j] == x;
            assert(keys[j] == keys[n - 1]);
        }
        assert(keys.subrange(0, n) =~= front.push(x));
        front.lemma_push_to_set_commute(x);
    }
}

/// The lookup key of a digest is 8 bytes longer than the digest, and two
/// digests with one lookup key are equal.
pub proof fn lemma_lookup_key(a: Seq<u8>, b: Seq<u8>)
    ensures
        lookup_key(a).len() == a.len() + 8,
        lookup_key(a) == lookup_key(b) ==> a == b,
{
    if lookup_key(a) == lookup_key(b) {
        assert(lookup_key(a).subrange(8, lookup_key(a).len() as int) =~= a);
        assert(lookup_key(b).subrange(8, lookup_key(b).len() as int) =~= b);
    }
}

/// Where a replay ends, no block follows: the lookup key of the last block
/// is not filed. The digest of the last block has 32 bytes where the one
/// that the replay began with has.
pub proof fn lemma_replay_end(map: Map<Seq<u8>, Seq<u8>>, state: ChainState, fuel: nat)
    requires
        replay(map, state, fuel) is Some,
    ensures
        !map.dom().contains(lookup_key(replay(map, state, fuel).unwrap().last)),
        state.last.len() == 32 ==> replay(map, state, fuel).unwrap().last.len() == 32,
    decreases fuel,
{
    if map.dom().contains(lookup_key(state.last)) {
        let next = map[lookup_key(state.last)];
        let keys = block_keys(map[next]);
        lemma_replay_end(
            map,
            ChainState {
                committee: toggled(state.committee, keys, keys.len() as int),
                last: next,
                block: state.block + 1,
            },
            (fuel - 1) as nat,
        );
    }
}

/// A replay that ends is the same with more steps allowed.
pub proof fn lemma_replay_more(map: Map<Seq<u8>, Seq<u8>>, state: ChainState, fuel: nat, more: nat)
    requires
        replay(map, state, fuel) is Some,
    ensures
        replay(map, state, fuel + more) == replay(map, state, fuel),
    decreases fuel,
{
    if map.dom().contains(lookup_key(state.last)) {
        let next = map[lookup_key(state.last)];
        let keys = block_keys(map[next]);
        lemma_replay_more(
            map,
            ChainState {
                committee: toggled(state.committee, keys, keys.len() as int),
                last: next,
                block: state.block + 1,
            },
            (fuel - 1) as nat,
            more,
        );
    }
}

/// The state that a replay reaches from `end` by the one block `bytes`.
pub open spec fn replay_next(end: ChainState, hash: Seq<u8>, bytes: Seq<u8>) -> ChainState {
    ChainState {
        committee: toggled(end.committee, block_keys(bytes), block_keys(bytes).len() as int),
        last: hash,
        block: end.block + 1,
    }
}

/// Filing one more block extends the replay by that block. The chain in
/// `map` replays from `state` to `end`. A block `bytes` that the committee
/// of `end` accepts is filed under a digest `hash` of 32 bytes, and the
/// digest under the lookup key of the last block of `end`. Where the digest
/// is new (nothing is filed under it or under its lookup key, and it is not
/// the digest of the last block), the chain then replays to the state after
/// that block, in one step more.
pub proof fn lemma_replay_step(
    map: Map<Seq<u8>, Seq<u8>>,
    state: ChainState,
    fuel: nat,
    hash: Seq<u8>,
    bytes: Seq<u8>,
)
    requires
        replay(map, state, fuel) is Some,
        state.last.len() == 32,
        hash.len() == 32,
        !map.dom().contains(hash),
        !map.dom().contains(lookup_key(hash)),
        hash != replay(map, state, fuel).unwrap().last,
        stored_block_accepted(replay(map, state, fuel).unwrap().committee, bytes),
    ensures
        replay(
            map.insert(hash, bytes).insert(lookup_key(replay(map, state, fuel).unwrap().last), hash),
            state,
            fuel + 1,
        ) == Some(replay_next(replay(map, state, fuel).unwrap(), hash, bytes)),
    decreases fuel,
{
    let end = replay(map, state, fuel).unwrap();
    let filed = map.insert(hash, bytes).insert(lookup_key(end.last), hash);
    lemma_replay_end(map, state, fuel);
    lemma_lookup_key(end.last, hash);
    lemma_lookup_key(state.last, end.last);
    lemma_lookup_key(state.last, hash);
    if !map.dom().contains(lookup_key(state.last)) {
        assert(end == state);
        let after = replay_next(end, hash, bytes);
        assert(filed[lookup_key(state.last)] == hash);
        assert(filed[hash] == bytes);
        assert(!filed.dom().contains(lookup_key(hash)));
        assert(replay(filed, after, fuel) == Some(after));
    } else {
        let next = map[lookup_key(state.last)];
        let keys = block_keys(map[next]);
        let then = ChainState {
            committee: toggled(state.committee, keys, keys.len() as int),
            last: next,
            block: state.block + 1,
        };
        assert(replay(map, then, (fuel - 1) as nat) == Some(end));
        lemma_replay_step(map, then, (fuel - 1) as nat, hash, bytes);
        assert(filed[lookup_key(state.last)] == next);
        assert(filed[next] == map[next]);
    }
}

/// Replaying the chain that a genesis files gives the committee of that
/// genesis, its first block as the last, and the block number 1. `block` is
/// the first block and `hash` its digest, which must not be the all-zero
/// digest.
pub proof fn lemma_replay_genesis(block: SignedBlock, hash: crate::hash::Hash)
    requires
        block.block.parent@ == crate::hash::zero_hash(),
        block.signatures@.len() == 0,
        block.block.authors@.len() <= u64::MAX,
        author_keys(block.block.authors@).no_duplicates(),
        forall|i: int|
            0 <= i < block.block.authors@.len() ==> public_key_valid(
                (#[trigger] block.block.authors@[i])@,
            ),
        hash@ == digest(block_preimage(crate::hash::zero_hash(), author_keys(block.block.authors@))),
        hash@ != crate::hash::zero_hash(),
    ensures
        replay(
            Map::<Seq<u8>, Seq<u8>>::empty().insert(hash@, block.bytes()).insert(
                lookup_key(crate::hash::zero_hash()),
                hash@,
            ),
            genesis_state(),
            2,
        ) == Some(
            (ChainState {
                committee: author_keys(block.block.authors@).to_set(),
                last: hash@,
                block: 1,
            }),
        ),
{
    broadcast use vstd::set::group_set_axioms;

    let zero = crate::hash::zero_hash();
    let keys = author_keys(block.block.authors@);
    let buf = block.bytes();
    let map = Map::<Seq<u8>, Seq<u8>>::empty().insert(hash@, buf).insert(lookup_key(zero), hash@);
    lemma_hash_ext(hash, hash);
    lemma_block_bytes(block);
    lemma_block_of(buf, block);
    assert(lookup_key(zero).len() == 40);
    assert(lookup_key(hash@).len() == 40);
    assert(map[lookup_key(zero)] == hash@);
    assert(map[hash@] == buf);
    assert(buf.subrange(0, 32) == zero);
    let nobody = Set::<Seq<u8>>::empty();
    let msg = digest(block_preimage(zero, block_keys(buf)));
    assert(signers(nobody, msg, block_sigs(buf)) =~= nobody);
    assert(threshold_of_signatures(0) == 0);
    assert(stored_block_accepted(nobody, buf));
    lemma_toggled_fresh(keys, keys.len() as int);
    assert(keys.subrange(0, keys.len() as int) =~= keys);
    let after = ChainState { committee: keys.to_set(), last: hash@, block: 1 };
    assert(!map.dom().contains(lookup_key(hash@))) by {
        if lookup_key(hash@) == lookup_key(zero) {
            assert(lookup_key(hash@).subrange(8, 40) =~= hash@);
            assert(lookup_key(zero).subrange(8, 40) =~= zero);
        }
    }
    assert(replay(map, after, 1) == Some(after));
}

} // verus!
