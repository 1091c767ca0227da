//! The replicated state: the author chain, the state machine, the queue of
//! this node's transactions, and the checkpoint that was agreed on last.
use crate::author::{Author, Identity, Signature};
use crate::authors::AuthorSet;
use crate::chain::{
    accepts, block_preimage, count_signers, genesis_bytes, genesis_state, lemma_accepts,
    lemma_lists, lookup_key, replay, signature_bytes, signature_threshold,
    threshold_of_signatures, AuthorChain,
};
use crate::checkpoint::{Checkpoint, ProposedCheckpoint, SignedCheckpoint};
use crate::crypto::digest;
use crate::dump::{
    lemma_parse_tree, lemma_put_all_ascending, parse_tree, put_all, tree_bytes, writable, Exporter,
};
use crate::error::Error;
use crate::hash::Hasher;
use crate::queue::TransactionQueue;
use crate::state_machine::{added_author, owners, removed_author, StateMachine};
use crate::transaction::{
    key_prefix, option_view, result_view, Key, Transaction, TransactionErrorView,
    TransactionResult, TransactionView, Value,
};
use crate::tree::{ascending, found_view, map_of, Tree};
use vstd::prelude::*;
use vstd::slice::slice_subrange;

verus! {

/// The replicated state.
#[derive(Debug)]
pub struct State {
    chain: AuthorChain,
    state_machine: StateMachine,
    queue: TransactionQueue,
    checkpoint: Option<SignedCheckpoint>,
    proposed: Option<ProposedCheckpoint>,
}

/// The two trees that a dump holds, and where it ends.
pub open spec fn parse_dump(bytes: Seq<u8>) -> Option<
    (Seq<(Seq<u8>, Seq<u8>)>, Seq<(Seq<u8>, Seq<u8>)>, int),
> {
    match parse_tree(bytes, 0) {
        Some((authors, mid)) => match parse_tree(bytes, mid) {
            Some((state, end)) => Some((authors, state, end)),
            None => None,
        },
        None => None,
    }
}

/// The tree that the entries of a dump make, put in order.
pub open spec fn read_entries(entries: Seq<(Seq<u8>, Seq<u8>)>) -> Seq<(Seq<u8>, Seq<u8>)> {
    put_all(Seq::empty(), entries, entries.len() as int)
}

/// Why a dump cannot be imported, if it cannot. The dump must hold two
/// trees, and the signed checkpoint must be the digest of what it holds.
/// The author chain of the first tree must replay. Where a first block was
/// known before, the chain must start with it. And the committee that the
/// chain leaves must accept the checkpoint with the signatures.
pub open spec fn import_error(prior: Option<Seq<u8>>, bytes: Seq<u8>, signed: SignedCheckpoint) -> Option<Error> {
    match parse_dump(bytes) {
        None => Some(Error::InvalidCheckpoint),
        Some((authors, state, end)) => {
            let filed = map_of(read_entries(authors));
            if digest(bytes.subrange(0, end)) != signed.checkpoint.0@ {
                Some(Error::InvalidCheckpoint)
            } else {
                match replay(filed, genesis_state(), read_entries(authors).len()) {
                    None => Some(Error::InvalidState),
                    Some(last) => {
                        if prior is Some
                            && !(filed.dom().contains(lookup_key(crate::hash::zero_hash()))
                            && filed[lookup_key(crate::hash::zero_hash())].len() == 32) {
                            Some(Error::InvalidState)
                        } else if prior is Some
                            && filed[lookup_key(crate::hash::zero_hash())] != prior.unwrap() {
                            Some(Error::InvalidCheckpoint)
                        } else if !accepts(
                            last.committee,
                            signed.checkpoint.0@,
                            signature_bytes(signed.signatures@),
                        ) {
                            Some(Error::InvalidCheckpoint)
                        } else {
                            None
                        }
                    },
                }
            }
        },
    }
}

impl State {
    /// The author chain.
    pub closed spec fn chain(&self) -> AuthorChain {
        self.chain
    }

    /// The state machine.
    pub closed spec fn machine(&self) -> StateMachine {
        self.state_machine
    }

    /// The queue of transactions.
    pub closed spec fn queue(&self) -> TransactionQueue {
        self.queue
    }

    /// The checkpoint that was agreed on last.
    pub closed spec fn signed(&self) -> Option<SignedCheckpoint> {
        self.checkpoint
    }

    /// The checkpoint that waits for signatures.
    pub closed spec fn proposed(&self) -> Option<ProposedCheckpoint> {
        self.proposed
    }

    /// The invariant of the state.
    pub open spec fn wf(&self) -> bool {
        &&& self.chain().wf()
        &&& self.machine().wf()
        &&& self.proposed() matches Some(p) ==> p.wf()
    }

    /// The digest of the first block that the chain files, if it files one.
    pub open spec fn genesis_filed(&self) -> Option<Seq<u8>> {
        if self.chain().filed().dom().contains(lookup_key(crate::hash::zero_hash()))
            && self.chain().filed()[lookup_key(crate::hash::zero_hash())].len() == 32 {
            Some(self.chain().filed()[lookup_key(crate::hash::zero_hash())])
        } else {
            None
        }
    }

    /// The state over the tree of the author chain and the tree of the
    /// state machine. The author chain is replayed; where that fails, the
    /// state is invalid.
    pub fn from_trees(authors: Tree, state: Tree) -> (r: Result<State, Error>)
        requires
            authors.wf(),
            state.wf(),
        ensures
            r is Ok <==> replay(authors@, genesis_state(), authors.pairs().len()) is Some,
            r matches Err(e) ==> e == Error::InvalidState,
            r matches Ok(out) ==> {
                let last = replay(authors@, genesis_state(), authors.pairs().len()).unwrap();
                &&& out.wf()
                &&& out.chain().entries() == authors.pairs()
                &&& out.chain().committee() == last.committee
                &&& out.chain().block_number() == last.block
                &&& out.chain().filed() == authors@
                &&& out.chain().tip()@ == last.last
                &&& out.chain().replays_to(last.last)
                &&& out.chain().pending() == Set::<Seq<u8>>::empty()
                &&& out.chain().pending_list().len() == 0
                &&& out.chain().proposal() is None
                &&& out.machine().entries() == state.pairs()
                &&& out.machine()@ == state@
                &&& out.queue().queued().len() == 0
                &&& out.queue().waiting().len() == 0
                &&& out.queue().answers().len() == 0
                &&& out.signed() is None
                &&& out.proposed() is None
            },
    {
        let chain = match AuthorChain::from_tree(authors) {
            Ok(chain) => chain,
            Err(e) => {
                return Err(e);
            },
        };
        Ok(
            State {
                chain,
                state_machine: StateMachine::from_tree(state),
                queue: TransactionQueue::new(),
                checkpoint: None,
                proposed: None,
            },
        )
    }

    /// The empty state: no block, no committee, no entry.
    pub fn new() -> (out: State)
        ensures
            out.wf(),
            blank(out),
    {
        State {
            chain: AuthorChain::empty(),
            state_machine: StateMachine::from_tree(Tree::new()),
            queue: TransactionQueue::new(),
            checkpoint: None,
            proposed: None,
        }
    }

    /// Starts the author chain anew with the committee `genesis_authors`.
    pub fn genesis(&mut self, genesis_authors: AuthorSet)
        requires
            old(self).wf(),
            genesis_authors.wf(),
        ensures
            final(self).wf(),
            begun(*old(self), genesis_authors, *final(self)),
    {
        self.chain.genesis(genesis_authors);
        proof {
            lemma_lists(self.chain);
        }
    }

    /// The digest of the first block.
    pub fn genesis_hash(&self) -> (r: Result<crate::hash::Hash, Error>)
        requires
            self.wf(),
        ensures
            r is Ok <==> self.genesis_filed() is Some,
            r matches Ok(h) ==> Some(h@) == self.genesis_filed(),
            r matches Err(e) ==> e == Error::InvalidState,
    {
        self.chain.genesis_hash()
    }

    /// The tree of the state machine.
    pub fn tree(&self) -> (out: &Tree)
        ensures
            out@ == self.machine()@,
            out.pairs() == self.machine().entries(),
            self.wf() ==> out.wf(),
    {
        self.state_machine.tree()
    }

    /// The tree of the author chain.
    pub fn authors_tree(&self) -> (out: &Tree)
        ensures
            out@ == self.chain().filed(),
            out.pairs() == self.chain().entries(),
            self.wf() ==> out.wf(),
    {
        self.chain.tree()
    }

    /// The committee.
    pub fn authors(&self) -> (out: &AuthorSet)
        ensures
            out@ == self.chain().committee(),
            self.wf() ==> out.wf(),
    {
        self.chain.authors()
    }

    /// Takes the transactions that wait to be put in an event.
    pub fn create_payload(&mut self) -> (payload: Vec<Transaction>)
        ensures
            payload@ == old(self).queue().queued(),
            final(self).queue().queued().len() == 0,
            final(self).queue().waiting() == old(self).queue().waiting(),
            final(self).queue().answers() == old(self).queue().answers(),
            final(self).chain() == old(self).chain(),
            final(self).machine() == old(self).machine(),
            final(self).signed() == old(self).signed(),
            final(self).proposed() == old(self).proposed(),
    {
        self.queue.create_payload()
    }

    /// Takes the answers to this node's transactions that were not fetched
    /// yet, each with the ticket of its transaction.
    pub fn take_answers(&mut self) -> (out: Vec<(crate::hash::Hash, TransactionResult)>)
        ensures
            answers_taken(*old(self), *final(self), out@),
            old(self).wf() ==> final(self).wf(),
    {
        self.queue.take_answers()
    }

    /// Queues `tx` and gives its ticket.
    pub fn create_transaction(&mut self, tx: Transaction) -> (hash: crate::hash::Hash)
        ensures
            queued_tx(*old(self), *final(self), tx, hash),
            hash@ == crate::queue::ticket_of(tx),
            final(self).queue().queued() == old(self).queue().queued().push(tx),
            final(self).queue().waits(hash@),
            final(self).chain() == old(self).chain(),
            final(self).machine() == old(self).machine(),
            final(self).signed() == old(self).signed(),
            final(self).proposed() == old(self).proposed(),
    {
        self.queue.create_transaction(tx)
    }

    /// Begins a round of the author chain.
    pub fn start_round(&mut self) -> (given: (u64, Vec<Author>))
        requires
            old(self).wf(),
        ensures
            final(self).wf(),
            AuthorChain::round_started(old(self).chain(), final(self).chain(), (given.0, given.1@)),
            final(self).machine() == old(self).machine(),
            final(self).queue() == old(self).queue(),
            final(self).signed() == old(self).signed(),
            final(self).proposed() == old(self).proposed(),
    {
        self.chain.start_round()
    }

    /// The transaction by which `identity` signs the proposed block, where
    /// there is one.
    pub fn sign_block(&self, identity: &Identity) -> (out: Option<Transaction>)
        ensures
            out is Some <==> self.chain().proposal() is Some,
            out matches Some(tx) ==> tx matches Transaction::SignBlock(sig) && sig@
                == crate::crypto::signature_of(identity@, self.chain().proposal().unwrap().hash@)
                && (crate::crypto::halves_match(identity@) ==> crate::crypto::signature_verifies(
                identity@.subrange(32, 64),
                self.chain().proposal().unwrap().hash@,
                sig@,
            )),
    {
        match self.chain.hash() {
            Some(hash) => Some(Transaction::SignBlock(identity.sign(hash.bytes.as_slice()))),
            None => None,
        }
    }

    /// The checkpoint that was agreed on last.
    pub fn checkpoint(&self) -> (out: Option<&SignedCheckpoint>)
        ensures
            out is Some <==> self.signed() is Some,
            out matches Some(c) ==> *c == self.signed().unwrap(),
    {
        self.checkpoint.as_ref()
    }
}


/// What a transaction on keys and values makes of the tree `map` in the
/// name of the author with the key `author`, and the answer to it. A write
/// needs permission: the author is on the list of the key's prefix, or the
/// list is empty and the author becomes its first member.
pub open spec fn kv_outcome(map: Map<Seq<u8>, Seq<u8>>, author: Seq<u8>, tx: TransactionView) -> (
    Map<Seq<u8>, Seq<u8>>,
    Result<(), TransactionErrorView>,
) {
    let refused = Err::<(), TransactionErrorView>(TransactionErrorView::Permission);
    match tx {
        TransactionView::Insert(key, value) => {
            let listed = added_author(map, author, key_prefix(key), author);
            if listed.1 {
                (listed.0.insert(key, value), Ok(()))
            } else {
                (map, refused)
            }
        },
        TransactionView::Remove(key) => {
            let listed = added_author(map, author, key_prefix(key), author);
            if listed.1 {
                (listed.0.remove(key), Ok(()))
            } else {
                (map, refused)
            }
        },
        TransactionView::CompareAndSwap(key, expected, proposed) => {
            let listed = added_author(map, author, key_prefix(key), author);
            let current = found_view(listed.0, key);
            if !listed.1 {
                (map, refused)
            } else if current == expected {
                (
                    match proposed {
                        Some(v) => listed.0.insert(key, v),
                        None => listed.0.remove(key),
                    },
                    Ok(()),
                )
            } else {
                (listed.0, Err(TransactionErrorView::CompareAndSwap { current, proposed }))
            }
        },
        TransactionView::AddAuthorToPrefix(prefix, new) => {
            let listed = added_author(map, author, prefix, new@);
            (
                listed.0,
                if listed.1 {
                    Ok(())
                } else {
                    refused
                },
            )
        },
        TransactionView::RemAuthorFromPrefix(prefix, rm) => {
            let listed = removed_author(map, author, prefix, rm@);
            (
                listed.0,
                if listed.1 {
                    Ok(())
                } else {
                    refused
                },
            )
        },
        _ => (map, Ok(())),
    }
}

/// The prefix whose list a transaction on keys and values reads, if it is
/// one.
pub open spec fn kv_prefix(tx: TransactionView) -> Option<Seq<u8>> {
    match tx {
        TransactionView::Insert(key, _) => Some(key_prefix(key)),
        TransactionView::Remove(key) => Some(key_prefix(key)),
        TransactionView::CompareAndSwap(key, _, _) => Some(key_prefix(key)),
        TransactionView::AddAuthorToPrefix(prefix, _) => Some(prefix),
        TransactionView::RemAuthorFromPrefix(prefix, _) => Some(prefix),
        _ => None,
    }
}

/// Whether the author chain `post` is the chain `pre` after the
/// transaction `tx` of `author` was committed: a request to add or remove an
/// author counts for the current block only, a signature is added to the
/// proposed block where it takes it, and any other transaction leaves the
/// chain as it is.
pub open spec fn chain_committed(pre: AuthorChain, post: AuthorChain, author: Author, tx: Transaction) -> bool {
    &&& post.wf()
    &&& post.filed() == pre.filed()
    &&& post.entries() == pre.entries()
    &&& post.committee() == pre.committee()
    &&& post.committee_list() == pre.committee_list()
    &&& post.tip() == pre.tip()
    &&& post.block_number() == pre.block_number()
    &&& match tx {
        Transaction::AddAuthor(a, block) => {
            &&& post.proposal() == pre.proposal()
            &&& post.pending() == (if block == pre.block_number() && !pre.committee().contains(
                a@,
            ) {
                pre.pending().insert(a@)
            } else {
                pre.pending()
            })
        },
        Transaction::RemAuthor(a, block) => {
            &&& post.proposal() == pre.proposal()
            &&& post.pending() == (if block == pre.block_number() && pre.committee().contains(
                a@,
            ) {
                pre.pending().insert(a@)
            } else {
                pre.pending()
            })
        },
        Transaction::SignBlock(sig) => {
            &&& post.pending() == pre.pending()
            &&& pre.proposal() is None ==> post.proposal() is None
            &&& pre.proposal() matches Some(p) ==> post.proposal() matches Some(q) && {
                &&& q.block == p.block
                &&& q.hash == p.hash
                &&& p.takes(author, sig) ==> q.signees@ == p.signees@.insert(author@)
                    && q.signatures@ == p.signatures@.push(sig)
                &&& !p.takes(author, sig) ==> q == p
            }
        },
        _ => post == pre,
    }
}

/// Whether the state `s` is empty: no block is filed and none proposed,
/// there is no committee and no author whose membership is to change, the
/// next block follows the all-zero digest, nothing is stored, no
/// transaction is queued, waited for or answered, and there is no
/// checkpoint.
pub open spec fn blank(s: State) -> bool {
    &&& s.chain().entries().len() == 0
    &&& s.chain().filed() == Map::<Seq<u8>, Seq<u8>>::empty()
    &&& s.chain().committee() == Set::<Seq<u8>>::empty()
    &&& s.chain().committee_list().len() == 0
    &&& s.chain().pending() == Set::<Seq<u8>>::empty()
    &&& s.chain().pending_list().len() == 0
    &&& s.chain().tip()@ == crate::hash::zero_hash()
    &&& s.chain().proposal() is None
    &&& s.chain().block_number() == 0
    &&& s.machine().entries().len() == 0
    &&& s.machine()@ == Map::<Seq<u8>, Seq<u8>>::empty()
    &&& s.queue().queued().len() == 0
    &&& s.queue().waiting().len() == 0
    &&& s.queue().answers().len() == 0
    &&& s.signed() is None
    &&& s.proposed() is None
}

/// Whether the state `post` is the state `pre` after its chain was started
/// anew with the committee `authors`: the committee is `authors`, in its
/// order; the first block, with the all-zero parent, the committee's keys
/// and no signature, is all that is filed, under its digest, and its digest
/// under the lookup key of the all-zero digest; the next block follows it;
/// no author's membership is to change; the block number is 1. A block that
/// was proposed stays proposed, and the rest of the state is as it was.
/// Where the authors are public keys and the digest of the first block is
/// not all-zero, the chain replays to this committee and block number.
pub open spec fn begun(pre: State, authors: AuthorSet, post: State) -> bool {
    let list = crate::authors::list_of(authors@);
    let tip = digest(block_preimage(crate::hash::zero_hash(), list));
    &&& post.chain().committee() == authors@
    &&& post.chain().committee_list() == list
    &&& authors.keys() == list
    &&& post.chain().block_number() == 1
    &&& post.chain().pending() == Set::<Seq<u8>>::empty()
    &&& post.chain().pending_list().len() == 0
    &&& post.chain().proposal() == pre.chain().proposal()
    &&& post.chain().tip()@ == tip
    &&& post.chain().filed() == Map::<Seq<u8>, Seq<u8>>::empty().insert(
        tip,
        genesis_bytes(list),
    ).insert(lookup_key(crate::hash::zero_hash()), tip)
    &&& post.machine() == pre.machine()
    &&& post.queue() == pre.queue()
    &&& post.signed() == pre.signed()
    &&& post.proposed() == pre.proposed()
    &&& crate::state_machine::all_keys(list) && tip != crate::hash::zero_hash()
        ==> post.chain().replays_to(tip)
}

/// Whether the state `post` is the state `pre` after it gave the
/// checkpoint and dump `out`: the dump is that of the chain's entries and
/// then that of the machine's, the checkpoint is its digest and is now
/// proposed, with no signature yet; the rest of the state is as it was.
pub open spec fn exported(pre: State, post: State, out: (Checkpoint, Seq<u8>)) -> bool {
    &&& out.1 == tree_bytes(pre.chain().entries()) + tree_bytes(pre.machine().entries())
    &&& out.0.0@ == digest(out.1)
    &&& post.chain() == pre.chain()
    &&& post.machine() == pre.machine()
    &&& post.queue() == pre.queue()
    &&& post.signed() == pre.signed()
    &&& post.proposed() matches Some(p) && p.checkpoint == out.0 && p.signatures@.len() == 0
}

/// Whether the state `post` is the state `pre` after the import of the
/// dump `bytes` as the checkpoint `signed`, with the result `r`. The import
/// succeeds exactly where `import_error` finds no fault, and else fails
/// with the fault it finds. After a success the chain and the machine hold
/// the entries of the dump, the committee and the block number are those
/// that the replay of the chain ends with, and `signed` is the checkpoint.
/// After a failure the chain and the machine are empty, and the checkpoint
/// is the one before. The queue is as it was.
pub open spec fn imported(
    pre: State,
    bytes: Seq<u8>,
    signed: SignedCheckpoint,
    post: State,
    r: Result<(), Error>,
) -> bool {
    &&& post.queue() == pre.queue()
    &&& r is Ok <==> import_error(pre.genesis_filed(), bytes, signed) is None
    &&& r matches Err(e) ==> {
        &&& Some(e) == import_error(pre.genesis_filed(), bytes, signed)
        &&& post.chain().entries().len() == 0
        &&& post.machine().entries().len() == 0
        &&& post.signed() == pre.signed()
    }
    &&& r is Ok ==> {
        let dump = parse_dump(bytes).unwrap();
        let last = replay(
            map_of(read_entries(dump.0)),
            genesis_state(),
            read_entries(dump.0).len(),
        ).unwrap();
        &&& post.chain().entries() == read_entries(dump.0)
        &&& post.chain().filed() == map_of(read_entries(dump.0))
        &&& post.machine().entries() == read_entries(dump.1)
        &&& post.machine()@ == map_of(read_entries(dump.1))
        &&& post.chain().committee() == last.committee
        &&& post.chain().block_number() == last.block
        &&& post.chain().tip()@ == last.last
        &&& post.chain().replays_to(last.last)
        &&& post.chain().pending() == Set::<Seq<u8>>::empty()
        &&& post.chain().proposal() is None
        &&& post.signed() == Some(signed)
    }
    &&& post.proposed() == pre.proposed()
}

/// Whether the state `post` is the state `pre` after the transaction `tx`
/// was queued under the ticket `hash`: the ticket is that of the
/// transaction, the transaction is the last that is queued, its ticket is
/// waited for (once, also where it was waited for before), and the rest of
/// the state is as it was.
pub open spec fn queued_tx(pre: State, post: State, tx: Transaction, hash: crate::hash::Hash) -> bool {
    &&& hash@ == crate::queue::ticket_of(tx)
    &&& post.queue().queued() == pre.queue().queued().push(tx)
    &&& post.queue().answers() == pre.queue().answers()
    &&& post.queue().waiting() == (if pre.queue().waits(hash@) {
        pre.queue().waiting()
    } else {
        pre.queue().waiting().push(hash)
    })
    &&& post.chain() == pre.chain()
    &&& post.machine() == pre.machine()
    &&& post.signed() == pre.signed()
    &&& post.proposed() == pre.proposed()
}

/// Whether the state `post` is the state `pre` after the answers `out` were
/// taken out of it: they are the answers that it had, none is left, and the
/// rest of the state is as it was.
pub open spec fn answers_taken(
    pre: State,
    post: State,
    out: Seq<(crate::hash::Hash, TransactionResult)>,
) -> bool {
    &&& out == pre.queue().answers()
    &&& post.queue().answers().len() == 0
    &&& post.queue().waiting() == pre.queue().waiting()
    &&& post.queue().queued() == pre.queue().queued()
    &&& post.chain() == pre.chain()
    &&& post.machine() == pre.machine()
    &&& post.signed() == pre.signed()
    &&& post.proposed() == pre.proposed()
}

/// Whether the list of authors that the transaction `tx` reads, if it reads
/// one, can be read from the tree `map`.
pub open spec fn readable(map: Map<Seq<u8>, Seq<u8>>, tx: TransactionView) -> bool {
    kv_prefix(tx) matches Some(prefix) ==> owners(map, prefix) is Some
}

/// Whether the state `post` is the state `pre` after `author` signed the
/// checkpoint that waits for signatures with `sig`. Where none waits,
/// nothing is changed. The signature is added where the checkpoint takes
/// it. Once the checkpoint has as many signatures as the committee's size
/// asks for, it is the checkpoint agreed on, and waits no longer.
pub open spec fn checkpoint_signed(pre: State, post: State, author: Author, sig: Signature) -> bool {
    match pre.proposed() {
        None => post.proposed() is None && post.signed() == pre.signed(),
        Some(p) => {
            let sigs = if p.takes(author, sig) {
                p.signatures@.push(sig)
            } else {
                p.signatures@
            };
            if sigs.len() >= threshold_of_signatures(pre.chain().committee().len() as int) {
                &&& post.proposed() is None
                &&& post.signed() matches Some(c) && c.checkpoint == p.checkpoint && c.signatures@
                    == sigs
            } else {
                &&& post.signed() == pre.signed()
                &&& post.proposed() matches Some(q) && q.checkpoint == p.checkpoint
                    && q.signatures@ == sigs && q.signees@ == (if p.takes(author, sig) {
                    p.signees@.insert(author@)
                } else {
                    p.signees@
                })
            }
        },
    }
}

/// Whether the state `post` is the state `pre` after the transaction `tx`
/// of `author` was committed with the answer `answer`: the tree and the
/// answer are what `kv_outcome` gives, the author chain is as
/// `chain_committed` says, a signature of the checkpoint is added as
/// `checkpoint_signed` says, and the answer is kept where the ticket of the
/// transaction waited.
pub open spec fn commit_done(
    pre: State,
    author: Author,
    tx: Transaction,
    post: State,
    answer: Result<(), TransactionErrorView>,
) -> bool {
    &&& readable(pre.machine()@, tx@)
    &&& (post.machine()@, answer) == kv_outcome(pre.machine()@, author@, tx@)
    &&& chain_committed(pre.chain(), post.chain(), author, tx)
    &&& crate::queue::answered(pre.queue(), post.queue(), tx, answer)
    &&& match tx {
        Transaction::SignCheckpoint(sig) => checkpoint_signed(pre, post, author, sig),
        _ => post.signed() == pre.signed() && post.proposed() == pre.proposed(),
    }
}

impl State {
    /// Adds the signature `sig` of `author` to the checkpoint that waits
    /// for signatures, where there is one that takes it. Once it has as
    /// many signatures as the committee's size asks for, it is the
    /// checkpoint agreed on, and waits no longer.
    fn sign_checkpoint(&mut self, author: Author, sig: Signature)
        requires
            old(self).wf(),
        ensures
            final(self).wf(),
            final(self).chain() == old(self).chain(),
            final(self).machine() == old(self).machine(),
            final(self).queue() == old(self).queue(),
            checkpoint_signed(*old(self), *final(self), author, sig),
    {
        proof {
            crate::chain::lemma_committee(self.chain);
        }
        match self.proposed.take() {
            Some(mut proposed) => {
                proposed.add_sig(author, sig);
                let threshold = signature_threshold(self.chain.authors().len());
                if proposed.len() >= threshold {
                    self.checkpoint = Some(proposed.into_signed_checkpoint());
                } else {
                    self.proposed = Some(proposed);
                }
            },
            None => {},
        }
    }

    /// Commits the transaction `tx` of `author` and gives the answer to
    /// it. A transaction on keys and values goes to the state machine, and
    /// fails, with nothing changed, where what is stored under its prefix is
    /// no list of authors; a transaction on the committee goes to the author
    /// chain; a signature of the checkpoint is added to the checkpoint that
    /// waits for signatures. Where the transaction was queued at this node,
    /// the answer is kept for its ticket.
    pub fn commit(&mut self, author: &Author, tx: &Transaction) -> (r: Result<TransactionResult, Error>)
        requires
            old(self).wf(),
        ensures
            final(self).wf(),
            r is Ok <==> readable(old(self).machine()@, tx@),
            r matches Err(e) ==> e == Error::Serde && *final(self) == *old(self),
            r matches Ok(answer) ==> commit_done(
                *old(self),
                *author,
                *tx,
                *final(self),
                result_view(answer),
            ),
    {
        let result: TransactionResult = match tx {
            Transaction::AddAuthor(a, block) => {
                self.chain.add_author(*a, *block);
                Ok(())
            },
            Transaction::RemAuthor(a, block) => {
                self.chain.rem_author(*a, *block);
                Ok(())
            },
            Transaction::SignBlock(sig) => {
                self.chain.sign_block(*author, *sig);
                Ok(())
            },
            Transaction::Insert(key, value) => match self.state_machine.insert(author, key, value) {
                Ok(answer) => answer,
                Err(e) => {
                    return Err(e);
                },
            },
            Transaction::Remove(key) => match self.state_machine.remove(author, key) {
                Ok(answer) => answer,
                Err(e) => {
                    return Err(e);
                },
            },
            Transaction::CompareAndSwap(key, expected, proposed) => {
                match self.state_machine.compare_and_swap(
                    author,
                    key,
                    expected.as_ref(),
                    proposed.as_ref(),
                ) {
                    Ok(answer) => answer,
                    Err(e) => {
                        return Err(e);
                    },
                }
            },
            Transaction::AddAuthorToPrefix(prefix, new) => {
                match self.state_machine.add_author_to_prefix(author, prefix.as_ref(), *new) {
                    Ok(answer) => answer,
                    Err(e) => {
                        return Err(e);
                    },
                }
            },
            Transaction::RemAuthorFromPrefix(prefix, rm) => {
                match self.state_machine.remove_author_from_prefix(author, prefix.as_ref(), *rm) {
                    Ok(answer) => answer,
                    Err(e) => {
                        return Err(e);
                    },
                }
            },
            Transaction::SignCheckpoint(sig) => {
                self.sign_checkpoint(*author, *sig);
                Ok(())
            },
        };
        let kept = crate::transaction::clone_result(&result);
        self.queue.commit(tx, kept);
        Ok(result)
    }

    /// The dump of the state: the tree of the author chain, then the tree
    /// of the state machine. Its digest is the checkpoint, which from now on
    /// waits for signatures.
    pub fn export_checkpoint(&mut self) -> (out: (Checkpoint, Vec<u8>))
        requires
            old(self).wf(),
        ensures
            final(self).wf(),
            exported(*old(self), *final(self), (out.0, out.1@)),
    {
        let mut bytes: Vec<u8> = Vec::new();
        Exporter::write_tree(self.chain.tree(), &mut bytes);
        Exporter::write_tree(self.state_machine.tree(), &mut bytes);
        assert(bytes@ =~= tree_bytes(self.chain().entries()) + tree_bytes(
            self.machine().entries(),
        ));
        let checkpoint = Checkpoint(Hasher::digest(bytes.as_slice()));
        self.proposed = Some(ProposedCheckpoint::new(checkpoint));
        (checkpoint, bytes)
    }

    /// Drops the author chain and what the state machine stores.
    fn reset(&mut self)
        requires
            old(self).wf(),
        ensures
            final(self).wf(),
            final(self).chain().entries().len() == 0,
            final(self).machine().entries().len() == 0,
            final(self).queue() == old(self).queue(),
            final(self).signed() == old(self).signed(),
            final(self).proposed() == old(self).proposed(),
    {
        self.chain = AuthorChain::empty();
        self.state_machine.clear();
    }

    /// Puts the dump `bytes` in place of the state, as the checkpoint
    /// `signed`. The dump is refused, and the state left empty, for the
    /// first of the reasons that `import_error` lists.
    pub fn import_checkpoint(&mut self, bytes: &[u8], signed: SignedCheckpoint) -> (r: Result<
        (),
        Error,
    >)
        requires
            old(self).wf(),
        ensures
            final(self).wf(),
            imported(*old(self), bytes@, signed, *final(self), r),
    {
        let prior = match self.chain.genesis_hash() {
            Ok(hash) => Some(hash),
            Err(_) => None,
        };
        self.reset();
        assert(self.machine().entries() =~= Seq::<(Seq<u8>, Seq<u8>)>::empty());
        let mut authors = Tree::new();
        let mid = match crate::dump::Importer::read_tree(&mut authors, bytes, 0) {
            Some(mid) => mid,
            None => {
                return Err(Error::InvalidCheckpoint);
            },
        };
        let end = match self.state_machine.read_tree(bytes, mid) {
            Some(end) => end,
            None => {
                self.state_machine.clear();
                return Err(Error::InvalidCheckpoint);
            },
        };
        let sum = Hasher::digest(slice_subrange(bytes, 0, end));
        if sum != signed.checkpoint.0 {
            proof {
                crate::hash::lemma_hash_ext(sum, signed.checkpoint.0);
            }
            self.state_machine.clear();
            return Err(Error::InvalidCheckpoint);
        }
        let chain = match AuthorChain::from_tree(authors) {
            Ok(chain) => chain,
            Err(e) => {
                self.state_machine.clear();
                return Err(e);
            },
        };
        if let Some(before) = prior {
            match chain.genesis_hash() {
                Ok(first) => {
                    if first != before {
                        proof {
                            crate::hash::lemma_hash_ext(first, before);
                        }
                        self.state_machine.clear();
                        return Err(Error::InvalidCheckpoint);
                    }
                },
                Err(e) => {
                    self.state_machine.clear();
                    return Err(e);
                },
            }
        }
        let committee = chain.authors();
        let threshold = signature_threshold(committee.len());
        let count = count_signers(
            committee,
            signed.checkpoint.0.bytes.as_slice(),
            signed.signatures.as_slice(),
        );
        proof {
            committee.lemma_card();
            lemma_accepts(*committee, signed.checkpoint.0@, signature_bytes(signed.signatures@));
        }
        if count < threshold {
            self.state_machine.clear();
            return Err(Error::InvalidCheckpoint);
        }
        self.chain = chain;
        self.checkpoint = Some(signed);
        proof {
            lemma_lists(self.chain);
            self.state_machine.lemma_entries();
        }
        Ok(())
    }
}

impl crate::vote::RoundSource for State {
    open spec fn ready(&self) -> bool {
        self.wf()
    }

    open spec fn started(pre: State, post: State, given: (u64, Seq<Author>)) -> bool {
        &&& AuthorChain::round_started(pre.chain(), post.chain(), given)
        &&& post.machine() == pre.machine()
        &&& post.queue() == pre.queue()
        &&& post.signed() == pre.signed()
        &&& post.proposed() == pre.proposed()
    }

    fn start_round(&mut self) -> (given: (u64, Vec<Author>)) {
        State::start_round(self)
    }
}

/// A dump that was exported is imported as it was: the two trees are read
/// back entry for entry, and their dump is, byte for byte, the dump that was
/// read.
pub proof fn lemma_checkpoint_round_trip(authors: Seq<(Seq<u8>, Seq<u8>)>, state: Seq<(Seq<u8>, Seq<u8>)>)
    requires
        ascending(authors),
        ascending(state),
        writable(authors),
        writable(state),
    ensures
        parse_dump(tree_bytes(authors) + tree_bytes(state)) == Some(
            (authors, state, (tree_bytes(authors) + tree_bytes(state)).len() as int),
        ),
        read_entries(authors) == authors,
        read_entries(state) == state,
        tree_bytes(read_entries(authors)) + tree_bytes(read_entries(state)) == tree_bytes(authors)
            + tree_bytes(state),
{
    let a = tree_bytes(authors);
    let s = tree_bytes(state);
    let bytes = a + s;
    assert(bytes.subrange(0, a.len() as int) =~= a);
    lemma_parse_tree(bytes, 0, authors);
    assert(bytes.subrange(a.len() as int, (a.len() + s.len()) as int) =~= s);
    lemma_parse_tree(bytes, a.len() as int, state);
    lemma_put_all_ascending(authors, authors.len() as int);
    lemma_put_all_ascending(state, state.len() as int);
    assert(authors.subrange(0, authors.len() as int) =~= authors);
    assert(state.subrange(0, state.len() as int) =~= state);
}

/// The dump of a state: that of the chain's entries, then that of the
/// machine's.
pub open spec fn dump_of(s: State) -> Seq<u8> {
    tree_bytes(s.chain().entries()) + tree_bytes(s.machine().entries())
}

/// A state that imports the dump of a state holds what that state held,
/// entry for entry, and its own dump is, byte for byte, the dump that it
/// imported.
pub proof fn lemma_export_import(s: State, before: State, signed: SignedCheckpoint, after: State)
    requires
        s.wf(),
        imported(before, dump_of(s), signed, after, Ok(())),
    ensures
        after.chain().entries() == s.chain().entries(),
        after.machine().entries() == s.machine().entries(),
        dump_of(after) == dump_of(s),
{
    lemma_lists(s.chain());
    s.machine().lemma_entries();
    lemma_checkpoint_round_trip(s.chain().entries(), s.machine().entries());
}

/// The dump of a state whose chain replays is imported: where the chain of
/// the state `s` replays to its committee, the checkpoint `signed` is the
/// digest of the dump of `s` and is accepted by that committee, and the
/// first block of `s` is the one that the importing state knows, if it
/// knows one, the import of the dump of `s` finds no fault.
pub proof fn lemma_import_succeeds(
    s: State,
    last: Seq<u8>,
    prior: Option<Seq<u8>>,
    signed: SignedCheckpoint,
)
    requires
        s.wf(),
        s.chain().replays_to(last),
        signed.checkpoint.0@ == digest(dump_of(s)),
        accepts(s.chain().committee(), signed.checkpoint.0@, signature_bytes(signed.signatures@)),
        prior matches Some(first) ==> {
            &&& s.chain().filed().dom().contains(lookup_key(crate::hash::zero_hash()))
            &&& s.chain().filed()[lookup_key(crate::hash::zero_hash())] == first
            &&& first.len() == 32
        },
    ensures
        import_error(prior, dump_of(s), signed) is None,
{
    let bytes = dump_of(s);
    lemma_lists(s.chain());
    s.machine().lemma_entries();
    lemma_checkpoint_round_trip(s.chain().entries(), s.machine().entries());
    assert(bytes.subrange(0, bytes.len() as int) =~= bytes);
}

impl State {
    /// Queues the storing of `value` under the key made of `prefix` and
    /// `key`, and gives the ticket of the transaction. A prefix of more than
    /// 255 bytes is refused.
    pub fn insert(&mut self, prefix: &[u8], key: &[u8], value: Value) -> (r: Result<
        crate::hash::Hash,
        Error,
    >)
        ensures
            r is Ok <==> prefix@.len() <= 255,
            r matches Err(e) ==> e == Error::InvalidKey && *final(self) == *old(self),
            r matches Ok(hash) ==> {
                &&& final(self).queue().queued().len() == old(self).queue().queued().len() + 1
                &&& final(self).queue().queued().last()@ == TransactionView::Insert(
                    crate::transaction::frame_key(prefix@, key@),
                    value@,
                )
                &&& hash@ == crate::queue::ticket_of(final(self).queue().queued().last())
                &&& queued_tx(*old(self), *final(self), final(self).queue().queued().last(), hash)
                &&& final(self).chain() == old(self).chain()
                &&& final(self).machine() == old(self).machine()
                &&& final(self).signed() == old(self).signed()
                &&& final(self).proposed() == old(self).proposed()
            },
    {
        let key = match Key::new(prefix, key) {
            Ok(key) => key,
            Err(e) => {
                return Err(e);
            },
        };
        Ok(self.queue.create_transaction(Transaction::Insert(key, value)))
    }

    /// Queues the removal of what is stored under the key made of `prefix`
    /// and `key`, and gives the ticket of the transaction. A prefix of more
    /// than 255 bytes is refused.
    pub fn remove(&mut self, prefix: &[u8], key: &[u8]) -> (r: Result<crate::hash::Hash, Error>)
        ensures
            r is Ok <==> prefix@.len() <= 255,
            r matches Err(e) ==> e == Error::InvalidKey && *final(self) == *old(self),
            r matches Ok(hash) ==> {
                &&& final(self).queue().queued().len() == old(self).queue().queued().len() + 1
                &&& final(self).queue().queued().last()@ == TransactionView::Remove(
                    crate::transaction::frame_key(prefix@, key@),
                )
                &&& hash@ == crate::queue::ticket_of(final(self).queue().queued().last())
                &&& queued_tx(*old(self), *final(self), final(self).queue().queued().last(), hash)
                &&& final(self).chain() == old(self).chain()
                &&& final(self).machine() == old(self).machine()
                &&& final(self).signed() == old(self).signed()
                &&& final(self).proposed() == old(self).proposed()
            },
    {
        let key = match Key::new(prefix, key) {
            Ok(key) => key,
            Err(e) => {
                return Err(e);
            },
        };
        Ok(self.queue.create_transaction(Transaction::Remove(key)))
    }

    /// Queues a compare-and-swap on the key made of `prefix` and `key`, and
    /// gives the ticket of the transaction. A prefix of more than 255 bytes
    /// is refused.
    pub fn compare_and_swap(
        &mut self,
        prefix: &[u8],
        key: &[u8],
        expected: Option<Value>,
        proposed: Option<Value>,
    ) -> (r: Result<crate::hash::Hash, Error>)
        ensures
            r is Ok <==> prefix@.len() <= 255,
            r matches Err(e) ==> e == Error::InvalidKey && *final(self) == *old(self),
            r matches Ok(hash) ==> {
                &&& final(self).queue().queued().len() == old(self).queue().queued().len() + 1
                &&& final(self).queue().queued().last()@ == TransactionView::CompareAndSwap(
                    crate::transaction::frame_key(prefix@, key@),
                    option_view(expected),
                    option_view(proposed),
                )
                &&& hash@ == crate::queue::ticket_of(final(self).queue().queued().last())
                &&& queued_tx(*old(self), *final(self), final(self).queue().queued().last(), hash)
                &&& final(self).chain() == old(self).chain()
                &&& final(self).machine() == old(self).machine()
                &&& final(self).signed() == old(self).signed()
                &&& final(self).proposed() == old(self).proposed()
            },
    {
        let key = match Key::new(prefix, key) {
            Ok(key) => key,
            Err(e) => {
                return Err(e);
            },
        };
        Ok(self.queue.create_transaction(Transaction::CompareAndSwap(key, expected, proposed)))
    }

    /// Queues the request that `author` may write under `prefix`, and gives
    /// the ticket of the transaction.
    pub fn add_author_to_prefix(&mut self, prefix: Value, author: Author) -> (hash: crate::hash::Hash)
        ensures
            final(self).queue().queued() == old(self).queue().queued().push(
                Transaction::AddAuthorToPrefix(prefix, author),
            ),
            hash@ == crate::queue::ticket_of(Transaction::AddAuthorToPrefix(prefix, author)),
            queued_tx(*old(self), *final(self), Transaction::AddAuthorToPrefix(prefix, author), hash),
            final(self).chain() == old(self).chain(),
            final(self).machine() == old(self).machine(),
            final(self).signed() == old(self).signed(),
            final(self).proposed() == old(self).proposed(),
    {
        self.queue.create_transaction(Transaction::AddAuthorToPrefix(prefix, author))
    }

    /// Queues the request that `author` may no longer write under `prefix`,
    /// and gives the ticket of the transaction.
    pub fn remove_author_from_prefix(&mut self, prefix: Value, author: Author) -> (hash:
        crate::hash::Hash)
        ensures
            final(self).queue().queued() == old(self).queue().queued().push(
                Transaction::RemAuthorFromPrefix(prefix, author),
            ),
            hash@ == crate::queue::ticket_of(Transaction::RemAuthorFromPrefix(prefix, author)),
            queued_tx(*old(self), *final(self), Transaction::RemAuthorFromPrefix(prefix, author), hash),
            final(self).chain() == old(self).chain(),
            final(self).machine() == old(self).machine(),
            final(self).signed() == old(self).signed(),
            final(self).proposed() == old(self).proposed(),
    {
        self.queue.create_transaction(Transaction::RemAuthorFromPrefix(prefix, author))
    }
}

} // verus!
