//! Events: what an author signs and gossips, and what the graph and the
//! voter derive of it.
use crate::author::{Author, Identity, Signature};
use crate::bytes::{compare_bytes, lex_lt, push_u128_be, u128_be, Order};
use crate::crypto::{digest, halves_match, signature_of, signature_verifies};
use crate::hash::Hasher;
use crate::transaction::{transaction_bytes, Transaction, TransactionView};
use vstd::prelude::*;

verus! {

/// The transactions of a payload, keys and values seen as byte strings.
pub open spec fn payload_view(payload: Seq<Transaction>) -> Seq<TransactionView> {
    payload.map_values(|tx: Transaction| tx@)
}

/// The encodings of the transactions of a payload, one after the other.
pub open spec fn payload_bytes(payload: Seq<TransactionView>) -> Seq<u8>
    decreases payload.len(),
{
    if payload.len() == 0 {
        Seq::empty()
    } else {
        payload_bytes(payload.drop_last()) + transaction_bytes(payload.last())
    }
}

/// The 32 bytes that stand for an optional parent: its digest, or zeros.
pub open spec fn parent_bytes(parent: Option<crate::hash::Hash>) -> Seq<u8> {
    match parent {
        Some(h) => h@,
        None => crate::hash::zero_hash(),
    }
}

/// The plain content of an unsigned event.
pub struct UnsignedView {
    pub payload: Seq<TransactionView>,
    pub self_hash: Option<crate::hash::Hash>,
    pub other_hash: Option<crate::hash::Hash>,
    pub time: u128,
    pub author: Author,
}

/// The bytes that are hashed and signed for an event: both parents (zeros
/// for an absent one), the author, the time as sixteen bytes, most
/// significant first, then the encoded payload.
pub open spec fn preimage(event: UnsignedView) -> Seq<u8> {
    parent_bytes(event.self_hash) + parent_bytes(event.other_hash) + event.author@ + u128_be(
        event.time,
    ) + payload_bytes(event.payload)
}

/// An event before it is signed.
#[derive(Debug)]
pub struct UnsignedRawEvent {
    /// The transactions that the event carries.
    pub payload: Vec<Transaction>,
    /// The author's previous event.
    pub self_hash: Option<crate::hash::Hash>,
    /// The latest event of another author that the author had seen.
    pub other_hash: Option<crate::hash::Hash>,
    /// The time that the author claims, in nanoseconds since the epoch.
    pub time: u128,
    /// The author.
    pub author: Author,
}

impl View for UnsignedRawEvent {
    type V = UnsignedView;

    open spec fn view(&self) -> UnsignedView {
        UnsignedView {
            payload: payload_view(self.payload@),
            self_hash: self.self_hash,
            other_hash: self.other_hash,
            time: self.time,
            author: self.author,
        }
    }
}

/// A copy of a payload.
pub fn clone_payload(payload: &Vec<Transaction>) -> (out: Vec<Transaction>)
    ensures
        payload_view(out@) == payload_view(payload@),
{
    let mut out: Vec<Transaction> = Vec::new();
    let mut i: usize = 0;
    while i < payload.len()
        invariant
            i <= payload@.len(),
            out@.len() == i,
            forall|j: int| 0 <= j < i ==> out@[j]@ == payload@[j]@,
        decreases payload@.len() - i,
    {
        out.push(payload[i].clone());
        i += 1;
    }
    assert(payload_view(out@) =~= payload_view(payload@));
    out
}

impl Clone for UnsignedRawEvent {
    fn clone(&self) -> (out: UnsignedRawEvent)
        ensures
            out@ == self@,
    {
        UnsignedRawEvent {
            payload: clone_payload(&self.payload),
            self_hash: self.self_hash,
            other_hash: self.other_hash,
            time: self.time,
            author: self.author,
        }
    }
}

impl UnsignedRawEvent {
    /// The digest of the event: that of its preimage.
    pub fn hash(&self) -> (hash: crate::hash::Hash)
        ensures
            hash@ == digest(preimage(self@)),
    {
        let mut buf: Vec<u8> = Vec::new();
        let zero = crate::hash::Hash::genesis();
        match &self.self_hash {
            Some(h) => buf.extend_from_slice(h.bytes.as_slice()),
            None => buf.extend_from_slice(zero.bytes.as_slice()),
        }
        assert(buf@ =~= parent_bytes(self.self_hash));
        match &self.other_hash {
            Some(h) => buf.extend_from_slice(h.bytes.as_slice()),
            None => buf.extend_from_slice(zero.bytes.as_slice()),
        }
        assert(buf@ =~= parent_bytes(self.self_hash) + parent_bytes(self.other_hash));
        buf.extend_from_slice(self.author.as_bytes().as_slice());
        push_u128_be(&mut buf, self.time);
        let ghost head = buf@;
        assert(head =~= parent_bytes(self.self_hash) + parent_bytes(self.other_hash)
            + self.author@ + u128_be(self.time));
        let mut i: usize = 0;
        while i < self.payload.len()
            invariant
                i <= self.payload@.len(),
                buf@ == head + payload_bytes(payload_view(self.payload@).subrange(0, i as int)),
            decreases self.payload@.len() - i,
        {
            let bytes = self.payload[i].encode();
            buf.extend_from_slice(bytes.as_slice());
            proof {
                let all = payload_view(self.payload@);
                let next = all.subrange(0, i + 1);
                assert(next.drop_last() =~= all.subrange(0, i as int));
                assert(next.last() == self.payload@[i as int]@);
                assert(buf@ =~= head + payload_bytes(next));
            }
            i += 1;
        }
        assert(payload_view(self.payload@).subrange(0, i as int) =~= payload_view(
            self.payload@,
        ));
        let mut hasher = Hasher::new();
        hasher.write(buf.as_slice());
        assert(hasher@ =~= preimage(self@));
        hasher.sum()
    }

    /// Signs the event: the signature is the identity's on the event's
    /// digest. It verifies under the author of the identity where the two
    /// halves of its keypair belong together.
    pub fn sign(self, identity: &Identity) -> (out: (crate::hash::Hash, RawEvent))
        ensures
            out.0@ == digest(preimage(self@)),
            out.1.event == self,
            out.1.signature@ == signature_of(identity@, out.0@),
            halves_match(identity@) ==> signature_verifies(
                identity@.subrange(32, 64),
                out.0@,
                out.1.signature@,
            ),
    {
        let hash = self.hash();
        let signature = identity.sign(hash.bytes.as_slice());
        (hash, RawEvent { event: self, signature })
    }
}

/// An event as it goes over the wire: its content and its author's
/// signature on its digest.
#[derive(Debug)]
pub struct RawEvent {
    /// The content.
    pub event: UnsignedRawEvent,
    /// The author's signature on the digest of the content.
    pub signature: Signature,
}

/// The plain content of a signed event.
pub struct RawView {
    pub event: UnsignedView,
    pub signature: Signature,
}

impl View for RawEvent {
    type V = RawView;

    open spec fn view(&self) -> RawView {
        RawView { event: self.event@, signature: self.signature }
    }
}

impl Clone for RawEvent {
    fn clone(&self) -> (out: RawEvent)
        ensures
            out@ == self@,
    {
        RawEvent { event: self.event.clone(), signature: self.signature }
    }
}

/// An event of the graph: the signed event and what was derived of it. The
/// derived fields start absent and are set once.
#[derive(Debug)]
pub struct Event {
    /// The signed event.
    pub raw: RawEvent,
    /// The digest of the event.
    pub hash: crate::hash::Hash,
    /// The place of the event in its self-parent chain, counted from 1.
    pub seq: u64,
    /// The digests of the parents, the self-parent first.
    pub parents: Vec<crate::hash::Hash>,
    /// The digests of the events that name this one as a parent.
    pub children: Vec<crate::hash::Hash>,
    /// The round that the event was created in.
    pub round_created: Option<u64>,
    /// Whether the event is the first of its self-parent chain in its round.
    pub witness: Option<bool>,
    /// The votes that the event casts on the fame of witnesses.
    pub votes: Vec<(crate::hash::Hash, bool)>,
    /// Whether the witness is famous.
    pub famous: Option<bool>,
    /// The round in which the event was received.
    pub round_received: Option<u64>,
    /// The consensus time of the event, in nanoseconds since the epoch.
    pub time_received: Option<u128>,
    /// The signature, made unpredictable by those of the round's unique
    /// famous witnesses.
    pub whitened_signature: Option<[u8; 64]>,
}

/// The digests of the parents that an event names, the self-parent first.
pub open spec fn parent_hashes(
    self_hash: Option<crate::hash::Hash>,
    other_hash: Option<crate::hash::Hash>,
) -> Seq<crate::hash::Hash> {
    (match self_hash {
        Some(h) => seq![h],
        None => Seq::<crate::hash::Hash>::empty(),
    }) + (match other_hash {
        Some(h) => seq![h],
        None => Seq::<crate::hash::Hash>::empty(),
    })
}

/// The vote on `witness` that a list of votes holds: that of its last
/// entry for the witness.
pub open spec fn vote_in(votes: Seq<(crate::hash::Hash, bool)>, witness: crate::hash::Hash) -> Option<bool>
    decreases votes.len(),
{
    if votes.len() == 0 {
        None
    } else if votes.last().0 == witness {
        Some(votes.last().1)
    } else {
        vote_in(votes.drop_last(), witness)
    }
}

/// Whether `b` is `a` with more derived of it: what the author signed and
/// what the graph recorded are the same, and a derived field that is set in
/// `a` has the same value in `b`.
pub open spec fn derived_kept(a: Event, b: Event) -> bool {
    &&& b.raw == a.raw
    &&& b.hash == a.hash
    &&& b.seq == a.seq
    &&& b.parents == a.parents
    &&& b.children == a.children
    &&& a.round_created is Some ==> b.round_created == a.round_created
    &&& a.witness is Some ==> b.witness == a.witness
    &&& a.famous is Some ==> b.famous == a.famous
    &&& a.round_received is Some ==> b.round_received == a.round_received
    &&& a.round_received is Some ==> b.time_received == a.time_received
    &&& a.round_received is Some ==> b.whitened_signature == a.whitened_signature
}

/// Whether `b` is `a` after an election: all is the same but the votes, and
/// but the fame where it was not decided.
pub open spec fn only_election(a: Event, b: Event) -> bool {
    &&& b.raw == a.raw
    &&& b.hash == a.hash
    &&& b.seq == a.seq
    &&& b.parents == a.parents
    &&& b.children == a.children
    &&& b.round_created == a.round_created
    &&& b.witness == a.witness
    &&& a.famous is Some ==> b.famous == a.famous
    &&& b.round_received == a.round_received
    &&& b.time_received == a.time_received
    &&& b.whitened_signature == a.whitened_signature
}

/// The key by which received events are ordered: round received, then
/// consensus time, then whitened signature.
pub open spec fn order_key(event: Event) -> (u64, u128, Seq<u8>) {
    (
        event.round_received.unwrap(),
        event.time_received.unwrap(),
        event.whitened_signature.unwrap()@,
    )
}

/// Whether an event was received: all three parts of its order key are set.
pub open spec fn received(event: Event) -> bool {
    event.round_received is Some && event.time_received is Some && event.whitened_signature
        is Some
}

/// The order of keys: by round, then by time, then by the bytes of the
/// whitened signature.
pub open spec fn key_lt(a: (u64, u128, Seq<u8>), b: (u64, u128, Seq<u8>)) -> bool {
    a.0 < b.0 || (a.0 == b.0 && (a.1 < b.1 || (a.1 == b.1 && lex_lt(a.2, b.2))))
}

/// Whether the key `a` does not come after the key `b`.
pub open spec fn key_leq(a: (u64, u128, Seq<u8>), b: (u64, u128, Seq<u8>)) -> bool {
    !key_lt(b, a)
}

/// The order of keys is total and transitive.
pub proof fn lemma_key_order(a: (u64, u128, Seq<u8>), b: (u64, u128, Seq<u8>), c: (u64, u128, Seq<u8>))
    ensures
        key_leq(a, b) || key_leq(b, a),
        key_leq(a, b) && key_leq(b, c) ==> key_leq(a, c),
        key_lt(a, b) ==> key_leq(a, b),
{
    crate::bytes::lemma_lex_total(a.2, b.2);
    crate::bytes::lemma_lex_total(b.2, c.2);
    crate::bytes::lemma_lex_total(a.2, c.2);
    if lex_lt(a.2, b.2) {
        crate::bytes::lemma_lex_asymmetric(a.2, b.2);
    }
    if lex_lt(b.2, a.2) {
        crate::bytes::lemma_lex_asymmetric(b.2, a.2);
    }
    if lex_lt(c.2, b.2) && lex_lt(b.2, a.2) {
        crate::bytes::lemma_lex_transitive(c.2, b.2, a.2);
    }
    if lex_lt(c.2, a.2) {
        crate::bytes::lemma_lex_asymmetric(c.2, a.2);
        if a.2 == b.2 {
        } else if lex_lt(a.2, b.2) {
            crate::bytes::lemma_lex_transitive(c.2, a.2, b.2);
        }
    }
}

impl Event {
    /// The event of the graph for a signed event with the given digest and
    /// place in its chain. Nothing is derived yet.
    pub fn new(raw: RawEvent, hash: crate::hash::Hash, seq: u64) -> (event: Event)
        ensures
            event.raw == raw,
            event.hash == hash,
            event.seq == seq,
            event.parents@ == parent_hashes(raw.event.self_hash, raw.event.other_hash),
            event.children@ == Seq::<crate::hash::Hash>::empty(),
            event.round_created is None,
            event.witness is None,
            event.votes@ == Seq::<(crate::hash::Hash, bool)>::empty(),
            event.famous is None,
            event.round_received is None,
            event.time_received is None,
            event.whitened_signature is None,
    {
        let mut parents: Vec<crate::hash::Hash> = Vec::new();
        if let Some(self_hash) = raw.event.self_hash {
            parents.push(self_hash);
        }
        if let Some(other_hash) = raw.event.other_hash {
            parents.push(other_hash);
        }
        assert(parents@ =~= parent_hashes(raw.event.self_hash, raw.event.other_hash));
        Event {
            raw,
            hash,
            seq,
            parents,
            children: Vec::new(),
            round_created: None,
            witness: None,
            votes: Vec::new(),
            famous: None,
            round_received: None,
            time_received: None,
            whitened_signature: None,
        }
    }

    /// The transactions that the event carries.
    pub fn payload(&self) -> (out: &[Transaction])
        ensures
            out@ == self.raw.event.payload@,
    {
        self.raw.event.payload.as_slice()
    }

    /// The digests of the parents, the self-parent first.
    pub fn parents(&self) -> (out: &[crate::hash::Hash])
        ensures
            out@ == self.parents@,
    {
        self.parents.as_slice()
    }

    /// The digest of the self-parent.
    pub fn self_parent(&self) -> (out: Option<&crate::hash::Hash>)
        ensures
            out is Some <==> self.raw.event.self_hash is Some,
            out matches Some(h) ==> *h == self.raw.event.self_hash.unwrap(),
    {
        self.raw.event.self_hash.as_ref()
    }

    /// The digests of the children.
    pub fn children(&self) -> (out: &[crate::hash::Hash])
        ensures
            out@ == self.children@,
    {
        self.children.as_slice()
    }

    /// Records one more child.
    pub fn add_child(&mut self, hash: crate::hash::Hash)
        ensures
            final(self).children@ == old(self).children@.push(hash),
            final(self).raw == old(self).raw,
            final(self).hash == old(self).hash,
            final(self).seq == old(self).seq,
            final(self).parents == old(self).parents,
            final(self).round_created == old(self).round_created,
            final(self).witness == old(self).witness,
            final(self).votes == old(self).votes,
            final(self).famous == old(self).famous,
            final(self).round_received == old(self).round_received,
            final(self).time_received == old(self).time_received,
            final(self).whitened_signature == old(self).whitened_signature,
    {
        self.children.push(hash);
    }

    /// The time that the author claims, in nanoseconds since the epoch.
    pub fn time(&self) -> (out: u128)
        ensures
            out == self.raw.event.time,
    {
        self.raw.event.time
    }

    /// The author of the event.
    pub fn author(&self) -> (out: &Author)
        ensures
            *out == self.raw.event.author,
    {
        &self.raw.event.author
    }

    /// The digest of the event.
    pub fn hash(&self) -> (out: &crate::hash::Hash)
        ensures
            *out == self.hash,
    {
        &self.hash
    }

    /// The author's signature.
    pub fn signature(&self) -> (out: &Signature)
        ensures
            *out == self.raw.signature,
    {
        &self.raw.signature
    }

    /// The place of the event in its self-parent chain, counted from 1.
    pub fn seq(&self) -> (out: u64)
        ensures
            out == self.seq,
    {
        self.seq
    }

    /// The round that the event was created in.
    pub fn round_created(&self) -> (out: Option<u64>)
        ensures
            out == self.round_created,
    {
        self.round_created
    }

    /// Whether the event is a witness.
    pub fn witness(&self) -> (out: Option<bool>)
        ensures
            out == self.witness,
    {
        self.witness
    }

    /// The vote that the event casts on `witness`, if it cast one.
    pub fn vote(&self, witness: &crate::hash::Hash) -> (out: Option<bool>)
        ensures
            out == vote_in(self.votes@, *witness),
    {
        let mut i: usize = self.votes.len();
        assert(self.votes@.subrange(0, i as int) =~= self.votes@);
        while i > 0
            invariant
                i <= self.votes@.len(),
                vote_in(self.votes@, *witness) == vote_in(
                    self.votes@.subrange(0, i as int),
                    *witness,
                ),
            decreases i,
        {
            i -= 1;
            proof {
                let front = self.votes@.subrange(0, i + 1);
                assert(front.last() == self.votes@[i as int]);
                assert(front.drop_last() =~= self.votes@.subrange(0, i as int));
            }
            if self.votes[i].0 == *witness {
                return Some(self.votes[i].1);
            }
        }
        None
    }

    /// Casts the vote `vote` on `witness`, in place of an earlier one.
    pub fn set_vote(&mut self, witness: crate::hash::Hash, vote: bool)
        ensures
            vote_in(final(self).votes@, witness) == Some(vote),
            forall|w: crate::hash::Hash|
                w != witness ==> vote_in(final(self).votes@, w) == vote_in(old(self).votes@, w),
            final(self).raw == old(self).raw,
            final(self).hash == old(self).hash,
            final(self).seq == old(self).seq,
            final(self).parents == old(self).parents,
            final(self).children == old(self).children,
            final(self).round_created == old(self).round_created,
            final(self).witness == old(self).witness,
            final(self).famous == old(self).famous,
            final(self).round_received == old(self).round_received,
            final(self).time_received == old(self).time_received,
            final(self).whitened_signature == old(self).whitened_signature,
    {
        match self.vote(&witness) {
            Some(v) => if v == vote {
                return ;
            },
            None => {},
        }
        self.votes.push((witness, vote));
        proof {
            assert(self.votes@.drop_last() =~= old(self).votes@);
        }
    }

    /// How this received event stands to another in the order of commits:
    /// by round received, then by consensus time, then by whitened
    /// signature. `None` where either was not received.
    pub fn commit_order(&self, other: &Event) -> (out: Option<Order>)
        ensures
            out is Some <==> received(*self) && received(*other),
            out is Some ==> (out == Some(Order::Less) <==> key_lt(
                order_key(*self),
                order_key(*other),
            )),
            out is Some ==> (out == Some(Order::Greater) <==> key_lt(
                order_key(*other),
                order_key(*self),
            )),
            out is Some ==> (out == Some(Order::Equal) <==> order_key(*self) == order_key(*other)),
    {
        match (
            self.round_received,
            other.round_received,
            self.time_received,
            other.time_received,
            &self.whitened_signature,
            &other.whitened_signature,
        ) {
            (Some(r1), Some(r2), Some(t1), Some(t2), Some(w1), Some(w2)) => {
                if r1 < r2 {
                    Some(Order::Less)
                } else if r1 > r2 {
                    Some(Order::Greater)
                } else if t1 < t2 {
                    Some(Order::Less)
                } else if t1 > t2 {
                    Some(Order::Greater)
                } else {
                    let order = compare_bytes(w1.as_slice(), w2.as_slice());
                    proof {
                        crate::bytes::lemma_lex_irreflexive(w1@);
                        if order == Order::Less {
                            crate::bytes::lemma_lex_asymmetric(w1@, w2@);
                        }
                        if order == Order::Greater {
                            crate::bytes::lemma_lex_asymmetric(w2@, w1@);
                        }
                    }
                    Some(order)
                }
            },
            _ => None,
        }
    }
}

} // verus!
