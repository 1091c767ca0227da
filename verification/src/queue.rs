//! The queue of the transactions that this node wants committed, and the
//! answers that come back for them.
use crate::crypto::digest;
use crate::hash::Hasher;
use crate::transaction::{
    clone_result, result_view, transaction_bytes, Transaction, TransactionErrorView,
    TransactionResult,
};
use core::task::Waker;
use vstd::prelude::*;

verus! {

/// A handle by which a task that waits is woken.
#[verifier::external_type_specification]
#[verifier::external_body]
pub struct ExWaker(Waker);

/// `Waker::wake`: wakes the task that the handle stands for. Nothing comes
/// back.
#[verifier::external_body]
fn wake_task(waker: Waker) {
    waker.wake()
}

/// The answer that a task waits for, with those who asked to be woken when
/// it comes.
#[derive(Debug)]
pub struct Subscription {
    result: Option<TransactionResult>,
    wakers: Vec<Waker>,
}

impl Subscription {
    /// The answer, as far as it came.
    pub closed spec fn answer(&self) -> Option<Result<(), TransactionErrorView>> {
        match self.result {
            Some(r) => Some(result_view(r)),
            None => None,
        }
    }

    /// How many asked to be woken.
    pub closed spec fn waiting(&self) -> nat {
        self.wakers@.len()
    }

    /// A subscription without answer and without anyone to wake.
    pub fn new() -> (out: Subscription)
        ensures
            out.answer() is None,
            out.waiting() == 0,
    {
        Subscription { result: None, wakers: Vec::new() }
    }

    /// Asks that `waker` be woken when the answer comes.
    pub fn add_waker(&mut self, waker: Waker)
        ensures
            final(self).answer() == old(self).answer(),
            final(self).waiting() == old(self).waiting() + 1,
    {
        self.wakers.push(waker);
    }

    /// The answer, if it came.
    pub fn result(&self) -> (out: Option<TransactionResult>)
        ensures
            out is Some <==> self.answer() is Some,
            out matches Some(r) ==> Some(result_view(r)) == self.answer(),
    {
        match &self.result {
            Some(r) => Some(clone_result(r)),
            None => None,
        }
    }

    /// Records the answer and wakes all who asked, in the order in which
    /// they asked.
    pub fn wake(&mut self, result: TransactionResult)
        ensures
            final(self).answer() == Some(result_view(result)),
            final(self).waiting() == 0,
    {
        self.result = Some(result);
        while self.wakers.len() > 0
            invariant
                self.result == Some(result),
            decreases self.wakers@.len(),
        {
            let waker = self.wakers.remove(0);
            wake_task(waker);
        }
    }
}

/// The queue of transactions. A transaction is known by its ticket, the
/// digest of its encoding.
#[derive(Debug)]
pub struct TransactionQueue {
    waiting: Vec<crate::hash::Hash>,
    queue: Vec<Transaction>,
    answers: Vec<(crate::hash::Hash, TransactionResult)>,
}

/// Whether the queue `post` is the queue `pre` after `tx` was committed
/// with the answer `result`: where the ticket of `tx` waited, it waits no
/// longer, and the answer is the last of those kept; otherwise nothing is
/// changed. What is queued stays queued.
pub open spec fn answered(
    pre: TransactionQueue,
    post: TransactionQueue,
    tx: Transaction,
    result: Result<(), TransactionErrorView>,
) -> bool {
    &&& post.queued() == pre.queued()
    &&& if pre.waits(ticket_of(tx)) {
        &&& exists|i: int|
            #![trigger pre.waiting()[i]]
            0 <= i < pre.waiting().len() && pre.waiting()[i]@ == ticket_of(tx) && post.waiting()
                == pre.waiting().remove(i)
        &&& post.answers().len() == pre.answers().len() + 1
        &&& post.answers().last().0@ == ticket_of(tx)
        &&& result_view(post.answers().last().1) == result
        &&& post.answers().drop_last() == pre.answers()
    } else {
        post.waiting() == pre.waiting() && post.answers() == pre.answers()
    }
}

impl Default for TransactionQueue {
    fn default() -> (out: TransactionQueue)
        ensures
            out.waiting().len() == 0,
            out.queued().len() == 0,
            out.answers().len() == 0,
    {
        TransactionQueue::new()
    }
}

/// The ticket of a transaction: the digest of its encoding.
pub open spec fn ticket_of(tx: Transaction) -> Seq<u8> {
    digest(transaction_bytes(tx@))
}

impl TransactionQueue {
    /// The tickets that wait for an answer.
    pub closed spec fn waiting(&self) -> Seq<crate::hash::Hash> {
        self.waiting@
    }

    /// The transactions that wait to be put in an event.
    pub closed spec fn queued(&self) -> Seq<Transaction> {
        self.queue@
    }

    /// The answers that were not fetched yet.
    pub closed spec fn answers(&self) -> Seq<(crate::hash::Hash, TransactionResult)> {
        self.answers@
    }

    /// Whether the ticket with the bytes `ticket` waits for an answer.
    pub open spec fn waits(&self, ticket: Seq<u8>) -> bool {
        exists|i: int| 0 <= i < self.waiting().len() && (#[trigger] self.waiting()[i])@ == ticket
    }

    /// The empty queue.
    pub fn new() -> (out: TransactionQueue)
        ensures
            out.waiting().len() == 0,
            out.queued().len() == 0,
            out.answers().len() == 0,
    {
        TransactionQueue { waiting: Vec::new(), queue: Vec::new(), answers: Vec::new() }
    }

    /// The ticket of `tx`.
    pub fn ticket(tx: &Transaction) -> (hash: crate::hash::Hash)
        ensures
            hash@ == ticket_of(*tx),
    {
        let bytes = tx.encode();
        Hasher::digest(bytes.as_slice())
    }

    /// Where the ticket `hash` waits.
    fn find(&self, hash: &crate::hash::Hash) -> (r: Option<usize>)
        ensures
            r is Some <==> self.waits(hash@),
            r matches Some(i) ==> i < self.waiting().len() && self.waiting()[i as int] == *hash,
    {
        let mut i: usize = 0;
        while i < self.waiting.len()
            invariant
                i <= self.waiting@.len(),
                forall|j: int| 0 <= j < i ==> (#[trigger] self.waiting@[j])@ != hash@,
            decreases self.waiting@.len() - i,
        {
            if self.waiting[i] == *hash {
                assert(self.waiting()[i as int]@ == hash@);
                return Some(i);
            }
            proof {
                crate::hash::lemma_hash_ext(self.waiting@[i as int], *hash);
            }
            i += 1;
        }
        None
    }

    /// Queues `tx` and gives its ticket, which from now on waits for an
    /// answer.
    pub fn create_transaction(&mut self, tx: Transaction) -> (hash: crate::hash::Hash)
        ensures
            hash@ == ticket_of(tx),
            final(self).queued() == old(self).queued().push(tx),
            final(self).answers() == old(self).answers(),
            final(self).waits(hash@),
            forall|t: Seq<u8>| old(self).waits(t) ==> final(self).waits(t),
            final(self).waiting() == (if old(self).waits(hash@) {
                old(self).waiting()
            } else {
                old(self).waiting().push(hash)
            }),
    {
        let hash = Self::ticket(&tx);
        self.queue.push(tx);
        if self.find(&hash).is_none() {
            self.waiting.push(hash);
            proof {
                assert(self.waiting()[old(self).waiting().len() as int]@ == hash@);
                assert forall|t: Seq<u8>| old(self).waits(t) implies self.waits(t) by {
                    let i = choose|i: int|
                        0 <= i < old(self).waiting().len()
                            && (#[trigger] old(self).waiting()[i])@ == t;
                    assert(self.waiting()[i]@ == t);
                }
            }
        }
        hash
    }

    /// Takes the transactions that wait to be put in an event.
    pub fn create_payload(&mut self) -> (payload: Vec<Transaction>)
        ensures
            payload@ == old(self).queued(),
            final(self).queued().len() == 0,
            final(self).waiting() == old(self).waiting(),
            final(self).answers() == old(self).answers(),
    {
        let mut payload: Vec<Transaction> = Vec::new();
        core::mem::swap(&mut payload, &mut self.queue);
        payload
    }

    /// Records that `tx` was committed with the answer `result`. Where its
    /// ticket waits, it waits no longer, and the answer is kept for it.
    pub fn commit(&mut self, tx: &Transaction, result: TransactionResult)
        ensures
            answered(*old(self), *final(self), *tx, result_view(result)),
    {
        let hash = Self::ticket(tx);
        match self.find(&hash) {
            Some(i) => {
                self.waiting.remove(i);
                self.answers.push((hash, result));
                assert(old(self).waiting()[i as int]@ == ticket_of(*tx));
                assert(self.answers().drop_last() =~= old(self).answers());
            },
            None => {},
        }
    }

    /// Takes the answers that were not fetched yet.
    pub fn take_answers(&mut self) -> (out: Vec<(crate::hash::Hash, TransactionResult)>)
        ensures
            out@ == old(self).answers(),
            final(self).answers().len() == 0,
            final(self).waiting() == old(self).waiting(),
            final(self).queued() == old(self).queued(),
    {
        let mut out: Vec<(crate::hash::Hash, TransactionResult)> = Vec::new();
        core::mem::swap(&mut out, &mut self.answers);
        out
    }
}

} // verus!
