//! The coordinator: it takes the events that a peer sends, answers with an
//! event of its own that carries this node's transactions, and commits
//! what the voter has put in its final order.
use crate::author::{Author, Identity};
use crate::authors::AuthorSet;
use crate::checkpoint::{Checkpoint, SignedCheckpoint};
use crate::crypto::{digest, halves_match, signature_of, signature_verifies};
use crate::error::Error;
use crate::event::{preimage, Event, RawEvent, UnsignedRawEvent};
use crate::graph::{holds, position, Graph};
use crate::state::{commit_done, readable, State};
use crate::transaction::{Transaction, TransactionErrorView, TransactionResult, Value};
use crate::tree::Tree;
use crate::vote::{processed, took, Voter};
use vstd::prelude::*;

verus! {

/// The place of the last of the first `n` events that is not by the
/// author with the key `me`.
pub open spec fn latest_other(events: Seq<RawEvent>, me: Seq<u8>, n: int) -> Option<int>
    decreases n,
{
    if n <= 0 {
        None
    } else if events[n - 1].event.author@ != me {
        Some(n - 1)
    } else {
        latest_other(events, me, n - 1)
    }
}

/// Whether `now` is the digest of the last of the first `n` events that is
/// not by `me`, or `prior` where there is none.
pub open spec fn other_after(
    events: Seq<RawEvent>,
    me: Seq<u8>,
    prior: Option<crate::hash::Hash>,
    n: int,
    now: Option<crate::hash::Hash>,
) -> bool {
    match latest_other(events, me, n) {
        Some(j) => now matches Some(h) && h@ == digest(preimage(events[j].event@)),
        None => now == prior,
    }
}

/// Taking one more event after `n - 1` events takes `n` events.
pub proof fn lemma_took_step(
    v0: Voter,
    s0: State,
    events: Seq<RawEvent>,
    n: int,
    vm: Voter,
    sm: State,
    v1: Voter,
    s1: State,
)
    requires
        n > 0,
        took_all(v0, s0, events, n - 1, vm, sm),
        took(vm, sm, events[n - 1], v1, s1),
    ensures
        took_all(v0, s0, events, n, v1, s1),
{
}

/// Committing one more transaction after `n - 1` transactions commits `n`
/// transactions.
pub proof fn lemma_ran_step(
    s0: State,
    txs: Seq<(Author, Transaction)>,
    n: int,
    sm: State,
    answer: Result<(), TransactionErrorView>,
    s1: State,
)
    requires
        n > 0,
        ran(s0, txs, n - 1, sm),
        commit_done(sm, txs[n - 1].0, txs[n - 1].1, s1, answer),
    ensures
        ran(s0, txs, n, s1),
{
}

/// What is remembered after one more event follows from what was remembered
/// before it.
pub proof fn lemma_other_after(
    events: Seq<RawEvent>,
    me: Seq<u8>,
    prior: Option<crate::hash::Hash>,
    n: int,
    before: Option<crate::hash::Hash>,
    now: Option<crate::hash::Hash>,
)
    requires
        0 <= n < events.len(),
        other_after(events, me, prior, n, before),
        if events[n].event.author@ != me {
            now matches Some(h) && h@ == digest(preimage(events[n].event@))
        } else {
            now == before
        },
    ensures
        other_after(events, me, prior, n + 1, now),
{
}

/// Whether taking the first `n` of `events`, one after the other, makes of
/// the voter `v0` and the state `s0` the voter `v1` and the state `s1`.
pub open spec fn took_all(
    v0: Voter,
    s0: State,
    events: Seq<RawEvent>,
    n: int,
    v1: Voter,
    s1: State,
) -> bool
    decreases n,
{
    if n <= 0 {
        v1 == v0 && s1 == s0
    } else {
        exists|vm: Voter, sm: State|
            took_all(v0, s0, events, n - 1, vm, sm) && #[trigger] took(
                vm,
                sm,
                events[n - 1],
                v1,
                s1,
            )
    }
}

/// Whether the node `a` is the node `pre` after it took the first `k` of
/// `events`, and stopped there: at the end of the events, or at the first
/// event that its graph refuses. The last event taken from another author is
/// remembered.
pub open spec fn taken(pre: HashGraph, events: Seq<RawEvent>, k: int, a: HashGraph) -> bool {
    &&& 0 <= k <= events.len()
    &&& took_all(pre.spec_voter(), pre.spec_state(), events, k, a.spec_voter(), a.spec_state())
    &&& k < events.len() ==> !a.spec_voter().spec_graph().admits(events[k])
    &&& a.keypair() == pre.keypair()
    &&& a.self_hash() == pre.self_hash()
    &&& other_after(events, pre.keypair().subrange(32, 64), pre.other_hash(), k, a.other_hash())
}

/// Whether the state `s1` is the state `s0` after the queued transactions
/// were taken out of it.
pub open spec fn drained(s0: State, s1: State) -> bool {
    &&& s1.chain() == s0.chain()
    &&& s1.machine() == s0.machine()
    &&& s1.signed() == s0.signed()
    &&& s1.proposed() == s0.proposed()
    &&& s1.queue().queued().len() == 0
    &&& s1.queue().waiting() == s0.queue().waiting()
    &&& s1.queue().answers() == s0.queue().answers()
}

/// Whether `own` is the event with which the node `a` answers at the time
/// `now`: it carries the queued transactions, names the node's last event
/// and the last event taken from another author as its parents, and is
/// signed by the node.
pub open spec fn is_own(a: HashGraph, now: u128, own: RawEvent) -> bool {
    &&& own.event.payload@ == a.spec_state().queue().queued()
    &&& own.event.self_hash == a.self_hash()
    &&& own.event.other_hash == a.other_hash()
    &&& own.event.time == now
    &&& own.event.author@ == a.keypair().subrange(32, 64)
    &&& own.signature@ == signature_of(a.keypair(), digest(preimage(own.event@)))
    &&& halves_match(a.keypair()) ==> signature_verifies(
        own.event.author@,
        digest(preimage(own.event@)),
        own.signature@,
    )
}

/// A node takes its own event where the two halves of its keypair belong
/// together, the events that it remembers are in its graph, and the graph
/// has room for one more.
pub proof fn lemma_own_admitted(a: HashGraph, now: u128, own: RawEvent)
    requires
        is_own(a, now, own),
        halves_match(a.keypair()),
        a.anchored(),
        a.spec_voter().spec_graph().nodes().len() < usize::MAX,
    ensures
        a.spec_voter().spec_graph().admits(own),
{
}

/// An event that a voter holds is held after the voter took another.
pub proof fn lemma_took_holds(
    v0: Voter,
    s0: State,
    event: RawEvent,
    v1: Voter,
    s1: State,
    h: crate::hash::Hash,
)
    requires
        took(v0, s0, event, v1, s1),
        holds(v0.spec_graph().nodes(), h),
    ensures
        holds(v1.spec_graph().nodes(), h),
{
    let s = v0.spec_graph().nodes();
    let t = v1.spec_graph().nodes();
    let i = choose|i: int| 0 <= i < s.len() && (#[trigger] s[i]).hash == h;
    if v1 != v0 {
        assert(t.subrange(0, s.len() as int)[i] == t[i]);
    }
}

/// Whether the node `b` is the node `a` after it answered with the event
/// `own`: the queue is drained and the digest of `own` is remembered as the
/// node's last event, whether or not the graph takes `own`; where it does,
/// `own` is taken as any event is.
pub open spec fn replied(a: HashGraph, now: u128, own: RawEvent, b: HashGraph) -> bool {
    &&& is_own(a, now, own)
    &&& b.keypair() == a.keypair()
    &&& b.other_hash() == a.other_hash()
    &&& b.self_hash() matches Some(h) && h@ == digest(preimage(own.event@))
    &&& if a.spec_voter().spec_graph().admits(own) {
        exists|aq: State| #[trigger]
            drained(a.spec_state(), aq) && took(
                a.spec_voter(),
                aq,
                own,
                b.spec_voter(),
                b.spec_state(),
            )
    } else {
        b.spec_voter() == a.spec_voter() && drained(a.spec_state(), b.spec_state())
    }
}

/// Whether the nodes `pre` and `post` differ in their states at most: the
/// voter, the keypair and the events remembered are the same.
pub open spec fn only_state(pre: HashGraph, post: HashGraph) -> bool {
    &&& post.spec_voter() == pre.spec_voter()
    &&& post.keypair() == pre.keypair()
    &&& post.self_hash() == pre.self_hash()
    &&& post.other_hash() == pre.other_hash()
}

/// The transactions of an event, each with the author of the event.
pub open spec fn event_txs(event: Event) -> Seq<(Author, Transaction)> {
    Seq::new(
        event.raw.event.payload@.len(),
        |j: int| (event.raw.event.author, event.raw.event.payload@[j]),
    )
}

/// The transactions of the first `k` of the committed events `out`, in the
/// order of commits, each with the author of its event.
pub open spec fn commit_txs(graph: Graph, out: Seq<crate::hash::Hash>, k: int) -> Seq<
    (Author, Transaction),
>
    decreases k,
{
    if k <= 0 {
        Seq::empty()
    } else {
        commit_txs(graph, out, k - 1) + event_txs(
            graph.events()[position(graph.nodes(), out[k - 1])],
        )
    }
}

/// Whether committing the first `n` of the transactions `txs`, one after
/// the other, makes of the state `s0` the state `s1`.
pub open spec fn ran(s0: State, txs: Seq<(Author, Transaction)>, n: int, s1: State) -> bool
    decreases n,
{
    if n <= 0 {
        s1 == s0
    } else {
        exists|sm: State, answer: Result<(), TransactionErrorView>|
            ran(s0, txs, n - 1, sm) && #[trigger] commit_done(
                sm,
                txs[n - 1].0,
                txs[n - 1].1,
                s1,
                answer,
            )
    }
}

/// Whether the node `post` is the node `c` after it committed the
/// transactions of the events `out`, in order, and stopped after `f` of
/// them: at the end, or at the first transaction that cannot read the list
/// of authors of its prefix.
pub open spec fn closed_with(c: HashGraph, out: Seq<crate::hash::Hash>, f: int, post: HashGraph) -> bool {
    let txs = commit_txs(c.spec_voter().spec_graph(), out, out.len() as int);
    &&& post.spec_voter() == c.spec_voter()
    &&& post.keypair() == c.keypair()
    &&& post.self_hash() == c.self_hash()
    &&& post.other_hash() == c.other_hash()
    &&& 0 <= f <= txs.len()
    &&& ran(c.spec_state(), txs, f, post.spec_state())
    &&& f < txs.len() ==> !readable(post.spec_state().machine()@, txs[f].1@)
}

/// Whether the node `c` is the node `b` after its voter decided what it
/// could and committed the events `out`.
pub open spec fn decided(b: HashGraph, out: Seq<crate::hash::Hash>, c: HashGraph) -> bool {
    &&& processed(b.spec_voter(), c.spec_voter(), out)
    &&& c.spec_state() == b.spec_state()
    &&& c.keypair() == b.keypair()
    &&& c.self_hash() == b.self_hash()
    &&& c.other_hash() == b.other_hash()
}

/// The course of a sync, from the node `pre` to the node `post` with the
/// result `r`. The node takes `k` of the events and is then `a`. Where an
/// event was refused, the sync ends there with an invalid event. Otherwise
/// the node answers with its event `own` and is then `b`; where its graph
/// refuses its own event, the sync ends there with an invalid event.
/// Otherwise the voter decides what it can, which commits the events `out`
/// and leaves the node `c`; the transactions of those events are committed
/// in order, `f` of them. Where one could not be committed, the sync ends
/// there with an encoding error; otherwise the digest of `own` comes back.
pub open spec fn sync_trace(
    pre: HashGraph,
    events: Seq<RawEvent>,
    now: u128,
    k: int,
    a: HashGraph,
    own: RawEvent,
    b: HashGraph,
    out: Seq<crate::hash::Hash>,
    c: HashGraph,
    f: int,
    post: HashGraph,
    r: Result<crate::hash::Hash, Error>,
) -> bool {
    &&& taken(pre, events, k, a)
    &&& if k < events.len() {
        r == Err::<crate::hash::Hash, Error>(Error::InvalidEvent) && post == a
    } else {
        &&& replied(a, now, own, b)
        &&& if !a.spec_voter().spec_graph().admits(own) {
            r == Err::<crate::hash::Hash, Error>(Error::InvalidEvent) && post == b
        } else {
            &&& decided(b, out, c)
            &&& closed_with(c, out, f, post)
            &&& if f < commit_txs(c.spec_voter().spec_graph(), out, out.len() as int).len() {
                r == Err::<crate::hash::Hash, Error>(Error::Serde)
            } else {
                r matches Ok(h) && Some(h) == post.self_hash()
            }
        }
    }
}

/// Whether a sync with the events `events` at the time `now` makes of the
/// node `pre` the node `post`, with the result `r`: there is a course of
/// the sync, as `sync_trace` describes it, that leads there.
pub open spec fn synced(
    pre: HashGraph,
    events: Seq<RawEvent>,
    now: u128,
    post: HashGraph,
    r: Result<crate::hash::Hash, Error>,
) -> bool {
    exists|
        k: int,
        a: HashGraph,
        own: RawEvent,
        b: HashGraph,
        out: Seq<crate::hash::Hash>,
        c: HashGraph,
        f: int,
    | #[trigger] sync_trace(pre, events, now, k, a, own, b, out, c, f, post, r)
}

/// The transactions of a committed event stand in the list of committed
/// transactions behind those of the events before it.
pub proof fn lemma_commit_txs(graph: Graph, out: Seq<crate::hash::Hash>, i: int, n: int, j: int)
    requires
        0 <= i < n <= out.len(),
        0 <= j < event_txs(graph.events()[position(graph.nodes(), out[i])]).len(),
    ensures
        commit_txs(graph, out, i).len() + j < commit_txs(graph, out, n).len(),
        commit_txs(graph, out, n)[commit_txs(graph, out, i).len() + j] == event_txs(
            graph.events()[position(graph.nodes(), out[i])],
        )[j],
    decreases n - i,
{
    if n > i + 1 {
        lemma_commit_txs(graph, out, i, n - 1, j);
    }
}

/// The list of committed transactions grows with the committed events.
pub proof fn lemma_commit_txs_len(graph: Graph, out: Seq<crate::hash::Hash>, i: int, n: int)
    requires
        0 <= i <= n <= out.len(),
    ensures
        commit_txs(graph, out, i).len() <= commit_txs(graph, out, n).len(),
    decreases n - i,
{
    if n > i {
        lemma_commit_txs_len(graph, out, i, n - 1);
    }
}

/// A node of the hashgraph.
#[derive(Debug)]
pub struct HashGraph {
    voter: Voter,
    state: State,
    identity: Identity,
    self_hash: Option<crate::hash::Hash>,
    other_hash: Option<crate::hash::Hash>,
}

impl HashGraph {
    /// The voter of the node.
    pub closed spec fn spec_voter(&self) -> Voter {
        self.voter
    }

    /// The state of the node.
    pub closed spec fn spec_state(&self) -> State {
        self.state
    }

    /// The keypair of the node.
    pub closed spec fn keypair(&self) -> Seq<u8> {
        self.identity@
    }

    /// The digest of the event that this node created last.
    pub closed spec fn self_hash(&self) -> Option<crate::hash::Hash> {
        self.self_hash
    }

    /// The digest of the event of another author that this node took last.
    pub closed spec fn other_hash(&self) -> Option<crate::hash::Hash> {
        self.other_hash
    }

    /// Whether the events that the node remembers, its own last event and
    /// the last event taken from another author, are in its graph.
    pub open spec fn anchored(&self) -> bool {
        &&& self.self_hash() matches Some(h) ==> holds(self.spec_voter().spec_graph().nodes(), h)
        &&& self.other_hash() matches Some(h) ==> holds(self.spec_voter().spec_graph().nodes(), h)
    }

    /// The invariant of the node: those of its voter and of its state.
    pub open spec fn wf(&self) -> bool {
        self.spec_voter().wf() && self.spec_state().wf()
    }

    /// A node with the identity `identity` over the state `state`, which
    /// knows no event.
    pub fn new(identity: Identity, state: State) -> (out: HashGraph)
        requires
            state.wf(),
        ensures
            out.wf(),
            out.spec_state() == state,
            out.keypair() == identity@,
            out.spec_voter().spec_graph().nodes().len() == 0,
            out.self_hash() is None,
            out.other_hash() is None,
    {
        HashGraph { voter: Voter::new(), state, identity, self_hash: None, other_hash: None }
    }

    /// Starts the author chain anew with the committee `genesis_authors`.
    pub fn genesis(&mut self, genesis_authors: AuthorSet)
        requires
            old(self).wf(),
            genesis_authors.wf(),
        ensures
            final(self).wf(),
            only_state(*old(self), *final(self)),
            crate::state::begun(old(self).spec_state(), genesis_authors, final(self).spec_state()),
    {
        self.state.genesis(genesis_authors);
    }

    /// Whether a round was begun, so that the node has a state to sync
    /// against.
    pub fn has_rounds(&self) -> (out: bool)
        ensures
            out == (self.spec_voter().spec_rounds().len() > 0),
    {
        self.voter.rounds().len() > 0
    }

    /// What this node holds, for a peer to sync against.
    pub fn sync_state(&self) -> (out: (u64, Vec<Option<u64>>))
        requires
            self.wf(),
            self.spec_voter().spec_rounds().len() > 0,
        ensures
            out.0 == self.spec_voter().spec_rounds().last().block,
            out.1@.len() == self.spec_voter().spec_rounds().last().authors@.len(),
            forall|k: int|
                0 <= k < out.1@.len() ==> out.1@[k] == crate::dag::last_seq(
                    self.spec_voter().spec_graph().nodes(),
                    #[trigger] self.spec_voter().spec_rounds().last().authors@[k],
                    self.spec_voter().spec_graph().nodes().len() as int,
                ),
    {
        self.voter.sync_state()
    }

    /// The events that a peer with the state `state` lacks, parents before
    /// children.
    pub fn outbound_sync(&self, state: (u64, Vec<Option<u64>>)) -> (r: Result<Vec<&RawEvent>, Error>)
        requires
            self.wf(),
        ensures
            r is Ok <==> crate::vote::round_of_block(
                self.spec_voter().spec_rounds(),
                state.0,
                self.spec_voter().spec_rounds().len() as int,
            ) is Some,
            r matches Err(e) ==> e == Error::InvalidSync,
            r matches Ok(out) ==> {
                let k = crate::vote::round_of_block(
                    self.spec_voter().spec_rounds(),
                    state.0,
                    self.spec_voter().spec_rounds().len() as int,
                ).unwrap();
                let authors = self.spec_voter().spec_rounds()[k].authors@;
                crate::graph::raw_refs_view(out@) == crate::graph::select_raw(
                    self.spec_voter().spec_graph().events(),
                    crate::dag::walk(
                        self.spec_voter().spec_graph().nodes(),
                        crate::vote::peer_state(
                            authors,
                            state.1@,
                            crate::vote::lesser(authors.len() as int, state.1@.len() as int),
                        ),
                        self.spec_voter().spec_graph().nodes().len() - 1,
                        crate::graph::fresh_walk(self.spec_voter().spec_graph().nodes().len()),
                    ).out,
                )
            },
    {
        self.voter.sync(state)
    }

    /// Takes the events of a peer, in order, up to the first that the graph
    /// refuses, and says how many it took.
    fn take_events(&mut self, events: Vec<RawEvent>) -> (k: usize)
        requires
            old(self).wf(),
        ensures
            final(self).wf(),
            taken(*old(self), events@, k as int, *final(self)),
            old(self).anchored() ==> final(self).anchored(),
    {
        let ghost pre = *self;
        let ghost all = events@;
        let ghost me = self.identity@.subrange(32, 64);
        let mut rest = events;
        let total = rest.len();
        let author = self.identity.author();
        let mut done: usize = 0;
        proof {
            assert(rest@ =~= all.subrange(0, total as int));
        }
        while rest.len() > 0
            invariant
                self.wf(),
                pre == *old(self),
                all == events@,
                self.identity == pre.identity,
                self.self_hash == pre.self_hash,
                me == pre.identity@.subrange(32, 64),
                author@ == me,
                total == all.len(),
                done + rest@.len() == total,
                rest@ == all.subrange(done as int, total as int),
                took_all(pre.voter, pre.state, all, done as int, self.voter, self.state),
                other_after(all, me, pre.other_hash, done as int, self.other_hash),
                pre.anchored() ==> self.anchored(),
            decreases rest@.len(),
        {
            let ghost vm = self.voter;
            let ghost sm = self.state;
            let ghost old_other = self.other_hash;
            let ghost mid = *self;
            let event = rest.remove(0);
            proof {
                assert(event == all[done as int]);
                assert(rest@ =~= all.subrange(done + 1, total as int));
            }
            let by_other = event.event.author != author;
            let hash = match self.voter.add_event(event, &mut self.state) {
                Ok(hash) => hash,
                Err(_) => {
                    proof {
                        assert(self.voter == vm && self.state == sm);
                        assert(!self.voter.spec_graph().admits(all[done as int]));
                        assert(taken(pre, all, done as int, *self));
                    }
                    return done;
                },
            };
            if by_other {
                self.other_hash = Some(hash);
            }
            proof {
                crate::author::lemma_author_ext(all[done as int].event.author, author);
                lemma_took_step(pre.voter, pre.state, all, done + 1, vm, sm, self.voter, self.state);
                if mid.anchored() {
                    if let Some(h) = mid.self_hash {
                        lemma_took_holds(vm, sm, all[done as int], self.voter, self.state, h);
                    }
                    if let Some(h) = mid.other_hash {
                        lemma_took_holds(vm, sm, all[done as int], self.voter, self.state, h);
                    }
                }
                lemma_other_after(all, me, pre.other_hash, done as int, old_other, self.other_hash);
            }
            done += 1;
        }
        done
    }

    /// Answers with an event of this node, stamped with the time `now`,
    /// and gives its digest where the graph takes it.
    fn reply(&mut self, now: u128) -> (r: Option<crate::hash::Hash>)
        requires
            old(self).wf(),
        ensures
            final(self).wf(),
            exists|own: RawEvent| #[trigger]
                replied(*old(self), now, own, *final(self)) && (r is Some <==> old(
                    self,
                ).spec_voter().spec_graph().admits(own)),
            r matches Some(h) ==> Some(h) == final(self).self_hash() && holds(
                final(self).spec_voter().spec_graph().nodes(),
                h,
            ),
            old(self).anchored() && r is Some ==> final(self).anchored(),
    {
        let ghost a = *self;
        let payload = self.state.create_payload();
        let ghost aq = self.state;
        let self_hash = self.self_hash.take();
        let unsigned = UnsignedRawEvent {
            payload,
            self_hash,
            other_hash: self.other_hash,
            time: now,
            author: self.identity.author(),
        };
        let (signed_hash, event) = unsigned.sign(&self.identity);
        let ghost own = event;
        self.self_hash = Some(signed_hash);
        let r = match self.voter.add_event(event, &mut self.state) {
            Ok(hash) => {
                proof {
                    crate::hash::lemma_hash_ext(hash, signed_hash);
                    if a.anchored() {
                        if let Some(h) = a.other_hash {
                            lemma_took_holds(a.voter, aq, own, self.voter, self.state, h);
                        }
                    }
                }
                Some(hash)
            },
            Err(_) => None,
        };
        proof {
            assert(drained(a.state, aq));
            assert(replied(a, now, own, *self));
        }
        r
    }

    /// Commits the transactions of the events with the digests `out`, in
    /// order, up to the first that cannot be committed, and says whether
    /// all were committed.
    fn commit_all(&mut self, out: &Vec<crate::hash::Hash>) -> (all: bool)
        requires
            old(self).wf(),
            forall|k: int|
                0 <= k < out@.len() ==> holds(
                    old(self).spec_voter().spec_graph().nodes(),
                    #[trigger] out@[k],
                ),
        ensures
            final(self).wf(),
            exists|f: int| #[trigger]
                closed_with(*old(self), out@, f, *final(self)) && (all <==> f == commit_txs(
                    old(self).spec_voter().spec_graph(),
                    out@,
                    out@.len() as int,
                ).len()),
    {
        let ghost c = *self;
        let ghost graph = self.voter.spec_graph();
        let ghost txs = commit_txs(graph, out@, out@.len() as int);
        let mut i: usize = 0;
        while i < out.len()
            invariant
                self.wf(),
                c == *old(self),
                self.voter == c.voter,
                self.identity == c.identity,
                self.self_hash == c.self_hash,
                self.other_hash == c.other_hash,
                graph == c.voter.spec_graph(),
                txs == commit_txs(graph, out@, out@.len() as int),
                i <= out@.len(),
                forall|k: int| 0 <= k < out@.len() ==> holds(graph.nodes(), #[trigger] out@[k]),
                ran(c.state, txs, commit_txs(graph, out@, i as int).len() as int, self.state),
            decreases out@.len() - i,
        {
            let ghost base = commit_txs(graph, out@, i as int).len() as int;
            let event = match self.voter.graph().event(&out[i]) {
                Some(event) => event,
                None => {
                    assert(false);
                    return false;
                },
            };
            let author = event.raw.event.author;
            let mut j: usize = 0;
            proof {
                lemma_commit_txs_len(graph, out@, i + 1, out@.len() as int);
            }
            while j < event.raw.event.payload.len()
                invariant
                    self.wf(),
                    c == *old(self),
                    self.voter == c.voter,
                    self.identity == c.identity,
                    self.self_hash == c.self_hash,
                    self.other_hash == c.other_hash,
                    graph == c.voter.spec_graph(),
                    txs == commit_txs(graph, out@, out@.len() as int),
                    i < out@.len(),
                    *event == graph.events()[position(graph.nodes(), out@[i as int])],
                    author == event.raw.event.author,
                    base == commit_txs(graph, out@, i as int).len(),
                    j <= event.raw.event.payload@.len(),
                    ran(c.state, txs, base + j, self.state),
                decreases event.raw.event.payload@.len() - j,
            {
                let ghost sm = self.state;
                proof {
                    lemma_commit_txs(graph, out@, i as int, out@.len() as int, j as int);
                    assert(txs[base + j] == (author, event.raw.event.payload@[j as int]));
                }
                match self.state.commit(&author, &event.raw.event.payload[j]) {
                    Ok(answer) => {
                        proof {
                            let view = crate::transaction::result_view(answer);
                            assert(commit_done(
                                sm,
                                txs[base + j].0,
                                txs[base + j].1,
                                self.state,
                                view,
                            ));
                            lemma_ran_step(c.state, txs, base + j + 1, sm, view, self.state);
                        }
                    },
                    Err(_) => {
                        proof {
                            assert(self.state == sm);
                            assert(base + j < txs.len());
                            assert(!readable(sm.machine()@, txs[base + j].1@));
                            assert(closed_with(c, out@, base + j, *self));
                        }
                        return false;
                    },
                }
                j += 1;
            }
            proof {
                assert(commit_txs(graph, out@, i + 1).len() == base + event_txs(*event).len());
            }
            i += 1;
        }
        assert(closed_with(c, out@, txs.len() as int, *self));
        true
    }

    /// Takes the events `events` of a peer, in order, and answers with an
    /// event of this node: it carries the transactions that were queued, is
    /// stamped with the time `now` (nanoseconds since the epoch), and names
    /// as parents the last event of this node and the last event taken from
    /// another author. Then the voter decides what it can, and the
    /// transactions of the events that it committed are committed in their
    /// final order. The digest of the new event comes back. The sync ends
    /// early, with what was done until then left in place, at an event that
    /// the graph refuses and at a transaction that cannot be committed.
    pub fn inbound_sync(&mut self, events: Vec<RawEvent>, now: u128) -> (r: Result<
        crate::hash::Hash,
        Error,
    >)
        requires
            old(self).wf(),
        ensures
            final(self).wf(),
            synced(*old(self), events@, now, *final(self), r),
            old(self).anchored() && !(r matches Err(e) && e == Error::InvalidEvent)
                ==> final(self).anchored(),
            final(self).keypair() == old(self).keypair(),
            r matches Ok(h) ==> final(self).self_hash() == Some(h) && holds(
                final(self).spec_voter().spec_graph().nodes(),
                h,
            ),
            r matches Err(e) ==> e == Error::InvalidEvent || e == Error::Serde,
    {
        let ghost pre = *self;
        let ghost all = events@;
        let total = events.len();
        let k = self.take_events(events);
        let ghost a = *self;
        if k < total {
            proof {
                let own: RawEvent = arbitrary();
                assert(sync_trace(
                    pre,
                    all,
                    now,
                    k as int,
                    a,
                    own,
                    a,
                    Seq::empty(),
                    a,
                    0,
                    *self,
                    Err::<crate::hash::Hash, Error>(Error::InvalidEvent),
                ));
            }
            return Err(Error::InvalidEvent);
        }
        let answer = self.reply(now);
        let ghost b = *self;
        let ghost own = choose|own: RawEvent| #[trigger]
            replied(a, now, own, b) && (answer is Some <==> a.spec_voter().spec_graph().admits(own));
        let hash = match answer {
            Some(hash) => hash,
            None => {
                proof {
                    assert(sync_trace(
                        pre,
                        all,
                        now,
                        k as int,
                        a,
                        own,
                        b,
                        Seq::empty(),
                        b,
                        0,
                        *self,
                        Err::<crate::hash::Hash, Error>(Error::InvalidEvent),
                    ));
                }
                return Err(Error::InvalidEvent);
            },
        };
        let out = self.voter.process_rounds();
        let ghost c = *self;
        proof {
            assert forall|j: int| 0 <= j < out@.len() implies holds(
                c.voter.spec_graph().nodes(),
                #[trigger] out@[j],
            ) by {
                assert(out@.contains(out@[j]));
            }
        }
        let all_done = self.commit_all(&out);
        let ghost f = choose|f: int| #[trigger]
            closed_with(c, out@, f, *self) && (all_done <==> f == commit_txs(
                c.spec_voter().spec_graph(),
                out@,
                out@.len() as int,
            ).len());
        if all_done {
            proof {
                assert(sync_trace(
                    pre,
                    all,
                    now,
                    k as int,
                    a,
                    own,
                    b,
                    out@,
                    c,
                    f,
                    *self,
                    Ok::<crate::hash::Hash, Error>(hash),
                ));
            }
            Ok(hash)
        } else {
            proof {
                assert(sync_trace(
                    pre,
                    all,
                    now,
                    k as int,
                    a,
                    own,
                    b,
                    out@,
                    c,
                    f,
                    *self,
                    Err::<crate::hash::Hash, Error>(Error::Serde),
                ));
            }
            Err(Error::Serde)
        }
    }

    /// The tree of the state machine.
    pub fn tree(&self) -> (out: &Tree)
        ensures
            out@ == self.spec_state().machine()@,
            self.wf() ==> out.wf(),
    {
        self.state.tree()
    }

    /// The state.
    pub fn state(&self) -> (out: &State)
        ensures
            *out == self.spec_state(),
    {
        &self.state
    }

    /// The voter.
    pub fn voter(&self) -> (out: &Voter)
        ensures
            *out == self.spec_voter(),
    {
        &self.voter
    }

    /// The author that this node signs for.
    pub fn identity(&self) -> (out: Author)
        ensures
            out@ == self.keypair().subrange(32, 64),
    {
        self.identity.author()
    }

    /// Puts the dump `bytes` in place of the state, as the checkpoint
    /// `signed`.
    pub fn import_checkpoint(&mut self, bytes: &[u8], signed: SignedCheckpoint) -> (r: Result<
        (),
        Error,
    >)
        requires
            old(self).wf(),
        ensures
            final(self).wf(),
            only_state(*old(self), *final(self)),
            crate::state::imported(
                old(self).spec_state(),
                bytes@,
                signed,
                final(self).spec_state(),
                r,
            ),
    {
        self.state.import_checkpoint(bytes, signed)
    }

    /// The dump of the state, and its digest, the checkpoint.
    pub fn export_checkpoint(&mut self) -> (out: (Checkpoint, Vec<u8>))
        requires
            old(self).wf(),
        ensures
            final(self).wf(),
            only_state(*old(self), *final(self)),
            crate::state::exported(
                old(self).spec_state(),
                final(self).spec_state(),
                (out.0, out.1@),
            ),
    {
        self.state.export_checkpoint()
    }

    /// Queues the storing of `value` under the key made of `prefix` and
    /// `key`, and gives the ticket of the transaction. A prefix of more than
    /// 255 bytes is refused.
    pub fn insert(&mut self, prefix: &[u8], key: &[u8], value: Value) -> (r: Result<
        crate::hash::Hash,
        Error,
    >)
        requires
            old(self).wf(),
        ensures
            final(self).wf(),
            only_state(*old(self), *final(self)),
            r is Ok <==> prefix@.len() <= 255,
            r matches Err(e)
                ==> e == Error::InvalidKey && final(self).spec_state() == old(self).spec_state(),
            r matches Ok(hash) ==> {
                let queued = final(self).spec_state().queue().queued();
                &&& queued.len() == old(self).spec_state().queue().queued().len() + 1
                &&& queued.last()@ == crate::transaction::TransactionView::Insert(
                    crate::transaction::frame_key(prefix@, key@),
                    value@,
                )
                &&& hash@ == crate::queue::ticket_of(queued.last())
                &&& crate::state::queued_tx(
                    old(self).spec_state(),
                    final(self).spec_state(),
                    queued.last(),
                    hash,
                )
                &&& final(self).spec_state().machine() == old(self).spec_state().machine()
                &&& final(self).spec_state().chain() == old(self).spec_state().chain()
            },
    {
        self.state.insert(prefix, key, value)
    }

    /// Queues the removal of what is stored under the key made of `prefix`
    /// and `key`, and gives the ticket of the transaction. A prefix of more
    /// than 255 bytes is refused.
    pub fn remove(&mut self, prefix: &[u8], key: &[u8]) -> (r: Result<crate::hash::Hash, Error>)
        requires
            old(self).wf(),
        ensures
            final(self).wf(),
            only_state(*old(self), *final(self)),
            r is Ok <==> prefix@.len() <= 255,
            r matches Err(e)
                ==> e == Error::InvalidKey && final(self).spec_state() == old(self).spec_state(),
            r matches Ok(hash) ==> {
                let queued = final(self).spec_state().queue().queued();
                &&& queued.len() == old(self).spec_state().queue().queued().len() + 1
                &&& queued.last()@ == crate::transaction::TransactionView::Remove(
                    crate::transaction::frame_key(prefix@, key@),
                )
                &&& hash@ == crate::queue::ticket_of(queued.last())
                &&& crate::state::queued_tx(
                    old(self).spec_state(),
                    final(self).spec_state(),
                    queued.last(),
                    hash,
                )
                &&& final(self).spec_state().machine() == old(self).spec_state().machine()
                &&& final(self).spec_state().chain() == old(self).spec_state().chain()
            },
    {
        self.state.remove(prefix, key)
    }

    /// Queues `tx` and gives its ticket.
    pub fn create_transaction(&mut self, tx: crate::transaction::Transaction) -> (hash:
        crate::hash::Hash)
        requires
            old(self).wf(),
        ensures
            final(self).wf(),
            only_state(*old(self), *final(self)),
            crate::state::queued_tx(old(self).spec_state(), final(self).spec_state(), tx, hash),
            hash@ == crate::queue::ticket_of(tx),
            final(self).spec_state().queue().queued()
                == old(self).spec_state().queue().queued().push(tx),
            final(self).spec_state().machine() == old(self).spec_state().machine(),
            final(self).spec_state().chain() == old(self).spec_state().chain(),
    {
        self.state.create_transaction(tx)
    }

    /// Takes the answers to this node's transactions that were not fetched
    /// yet, each with the ticket of its transaction.
    pub fn take_answers(&mut self) -> (out: Vec<(crate::hash::Hash, TransactionResult)>)
        requires
            old(self).wf(),
        ensures
            final(self).wf(),
            only_state(*old(self), *final(self)),
            crate::state::answers_taken(
                old(self).spec_state(),
                final(self).spec_state(),
                out@,
            ),
    {
        self.state.take_answers()
    }
}

} // verus!
