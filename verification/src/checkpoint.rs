//! Checkpoints: the digest of a dump of the state, and the signatures that
//! the committee gives it.
use crate::author::{Author, Signature};
use crate::authors::AuthorSet;
use crate::crypto::signature_verifies;
use vstd::prelude::*;

verus! {

/// The digest of a dump of the state.
#[derive(Clone, Copy, Debug, PartialEq, Eq)]
pub struct Checkpoint(pub crate::hash::Hash);

/// A checkpoint with the signatures of the committee.
#[derive(Debug, PartialEq, Eq)]
pub struct SignedCheckpoint {
    /// The checkpoint.
    pub checkpoint: Checkpoint,
    /// The signatures on the checkpoint.
    pub signatures: Vec<Signature>,
}

/// A checkpoint that waits for the signatures of the committee.
#[derive(Debug)]
pub struct ProposedCheckpoint {
    /// The checkpoint.
    pub checkpoint: Checkpoint,
    /// The authors that signed.
    pub signees: AuthorSet,
    /// Their signatures, in the order in which they came.
    pub signatures: Vec<Signature>,
}

impl ProposedCheckpoint {
    /// The invariant: the set of signees is in order.
    pub open spec fn wf(&self) -> bool {
        self.signees.wf()
    }

    /// The proposal of `checkpoint`, without signatures.
    pub fn new(checkpoint: Checkpoint) -> (out: ProposedCheckpoint)
        ensures
            out.wf(),
            out.checkpoint == checkpoint,
            out.signatures@.len() == 0,
            out.signees@ == Set::<Seq<u8>>::empty(),
    {
        ProposedCheckpoint { checkpoint, signees: AuthorSet::new(), signatures: Vec::new() }
    }

    /// Whether the proposal takes the signature `sig` of `author`: the
    /// author has not signed yet, and the signature is theirs on the
    /// checkpoint.
    pub open spec fn takes(&self, author: Author, sig: Signature) -> bool {
        !self.signees@.contains(author@) && signature_verifies(author@, self.checkpoint.0@, sig@)
    }

    /// Adds the signature `sig` of `author`, unless the author signed
    /// already or the signature is not theirs on the checkpoint.
    pub fn add_sig(&mut self, author: Author, sig: Signature)
        requires
            old(self).wf(),
        ensures
            final(self).wf(),
            final(self).checkpoint == old(self).checkpoint,
            old(self).takes(author, sig) ==> final(self).signees@ == old(self).signees@.insert(
                author@,
            ) && final(self).signatures@ == old(self).signatures@.push(sig),
            !old(self).takes(author, sig) ==> *final(self) == *old(self),
    {
        if self.signees.contains(&author) {
            return ;
        }
        if !author.verify(self.checkpoint.0.bytes.as_slice(), &sig) {
            return ;
        }
        self.signees.insert(author);
        self.signatures.push(sig);
    }

    /// The number of signatures.
    pub fn len(&self) -> (n: usize)
        ensures
            n == self.signatures@.len(),
    {
        self.signatures.len()
    }

    /// The checkpoint with the signatures collected.
    pub fn into_signed_checkpoint(self) -> (out: SignedCheckpoint)
        ensures
            out.checkpoint == self.checkpoint,
            out.signatures == self.signatures,
    {
        SignedCheckpoint { checkpoint: self.checkpoint, signatures: self.signatures }
    }
}

} // verus!
