//! The voter: it places events in rounds, elects the famous witnesses of
//! each round, and puts the events that a decided round receives in their
//! final order.
use crate::author::Author;
use crate::dag::{ancestor, descendant_marks, strongly_sees, Node};
use crate::error::Error;
use crate::election::{
    cast_ok, coin_bits, committees, decides, decision, decision_before, lemma_stored_yes, seen_in, stored_yes,
    vote_of, votes_cast,
};
use crate::bytes::Order;
use crate::event::{
    derived_kept, key_leq, key_lt, lemma_key_order, only_election, order_key, received, vote_in,
    Event, RawEvent,
};
use crate::finality::{
    author_witnesses, consensus_time, learned_at, learned_times, lemma_newly_received,
    lemma_shared_step,
    claimed_times, fames, first_receiver, lemma_first_receiver, newly_received, received_as,
    received_with, receives, rounds_received, shared_by,
    signatures, unique_famous, whitened, whitener,
};
use crate::order::{median_of, xor};
use crate::graph::{graph_kept, holds, lemma_graph_wf, position, same_but_children, Graph};
use vstd::prelude::*;

verus! {

/// Every this many rounds an election that has not come to a decision lets
/// a coin decide the vote.
pub const FREQ_COIN_ROUNDS: usize = 10;

/// What is more than two thirds of `n`: a count must exceed `2 * n / 3`.
pub open spec fn threshold_of(n: int) -> int {
    2 * n / 3
}

/// A round: the witnesses that were created in it, and the committee that
/// votes in it.
#[derive(Debug)]
pub struct Round {
    /// The number of the round, counted from 1.
    pub round: u64,
    /// The number of the block of the author chain that the committee was
    /// taken from.
    pub block: u64,
    /// The committee, ordered by bytes.
    pub authors: Vec<Author>,
    /// Every this many rounds an undecided election flips a coin.
    pub freq_coin_rounds: usize,
    /// The digests of the witnesses, in the order of their arrival.
    pub witnesses: Vec<crate::hash::Hash>,
    /// The positions of the witnesses in the graph.
    pub places: Vec<usize>,
    /// Whether the fame of every witness is decided.
    pub decided: bool,
    /// The digests of the famous witnesses whose author has no other
    /// witness in the round.
    pub unique_famous_witnesses: Vec<crate::hash::Hash>,
    /// The positions of the unique famous witnesses in the graph.
    pub unique_places: Vec<usize>,
}

impl Round {
    /// A round without witnesses.
    pub fn new(round: u64, block: u64, authors: Vec<Author>) -> (out: Round)
        ensures
            out.round == round,
            out.block == block,
            out.authors == authors,
            out.freq_coin_rounds == FREQ_COIN_ROUNDS,
            out.witnesses@.len() == 0,
            out.places@.len() == 0,
            !out.decided,
            out.unique_famous_witnesses@.len() == 0,
            out.unique_places@.len() == 0,
    {
        Round {
            round,
            block,
            authors,
            freq_coin_rounds: FREQ_COIN_ROUNDS,
            witnesses: Vec::new(),
            places: Vec::new(),
            decided: false,
            unique_famous_witnesses: Vec::new(),
            unique_places: Vec::new(),
        }
    }

    /// The number of the round.
    pub fn round(&self) -> (out: u64)
        ensures
            out == self.round,
    {
        self.round
    }

    /// The committee.
    pub fn authors(&self) -> (out: &[Author])
        ensures
            out@ == self.authors@,
    {
        self.authors.as_slice()
    }

    /// The size of the committee.
    pub fn population(&self) -> (out: usize)
        ensures
            out == self.authors@.len(),
    {
        self.authors.len()
    }

    /// The count that more than two thirds of the committee must exceed:
    /// twice the population, divided by three.
    pub fn threshold(&self) -> (out: usize)
        ensures
            out == threshold_of(self.authors@.len() as int),
    {
        let n: u128 = self.authors.len() as u128;
        (2 * n / 3) as usize
    }

    /// Every this many rounds an undecided election flips a coin.
    pub fn freq_coin_rounds(&self) -> (out: usize)
        ensures
            out == self.freq_coin_rounds,
    {
        self.freq_coin_rounds
    }

    /// The digests of the witnesses.
    pub fn witnesses(&self) -> (out: &[crate::hash::Hash])
        ensures
            out@ == self.witnesses@,
    {
        self.witnesses.as_slice()
    }
}

/// Where the voter gets the committee of a round that begins.
pub trait RoundSource: Sized {
    /// Whether the source is in order, so that a round can begin.
    spec fn ready(&self) -> bool;

    /// Whether beginning a round took the source from `pre` to `post` and
    /// gave the block number and committee `given`.
    spec fn started(pre: Self, post: Self, given: (u64, Seq<Author>)) -> bool;

    /// Begins a round: gives the number of the current block and the
    /// committee.
    fn start_round(&mut self) -> (given: (u64, Vec<Author>))
        requires
            old(self).ready(),
        ensures
            final(self).ready(),
            Self::started(*old(self), *final(self), (given.0, given.1@)),
    ;
}

/// The round of the parent at `p`, or 0 for no parent.
pub open spec fn round_at(events: Seq<Event>, p: Option<usize>) -> u64 {
    match p {
        Some(q) => match events[q as int].round_created {
            Some(r) => r,
            None => 0,
        },
        None => 0,
    }
}

/// The greater of the rounds of the parents of `node`.
pub open spec fn parent_round(events: Seq<Event>, node: Node) -> u64 {
    let a = round_at(events, node.self_parent);
    let b = round_at(events, node.other_parent);
    if a >= b {
        a
    } else {
        b
    }
}

/// How many of the first `n` of the witnesses at `places` the event at `x`
/// strongly sees.
pub open spec fn seen_count(s: Seq<Node>, x: int, places: Seq<usize>, authors: Seq<Author>, n: int) -> int
    decreases n,
{
    if n <= 0 {
        0
    } else {
        seen_count(s, x, places, authors, n - 1) + (if strongly_sees(
            s,
            x,
            places[n - 1] as int,
            authors,
        ) {
            1int
        } else {
            0int
        })
    }
}

/// Whether the event at `x`, whose parents reach round `pr`, belongs to the
/// round after: there is no round `pr`, or the event strongly sees more than
/// two thirds (of the committee) of the witnesses of round `pr`.
pub open spec fn advances(s: Seq<Node>, x: int, rounds: Seq<Round>, pr: u64) -> bool {
    pr < 1 || pr > rounds.len() || seen_count(
        s,
        x,
        rounds[pr - 1].places@,
        rounds[pr - 1].authors@,
        rounds[pr - 1].places@.len() as int,
    ) > threshold_of(rounds[pr - 1].authors@.len() as int)
}

/// The round of the event at `x`.
pub open spec fn round_for(s: Seq<Node>, events: Seq<Event>, x: int, rounds: Seq<Round>) -> int {
    let pr = parent_round(events, s[x]);
    if advances(s, x, rounds, pr) {
        pr + 1
    } else {
        pr as int
    }
}

/// Whether the event at `x` is a witness: its round is greater than that of
/// its self-parent, or it has no self-parent.
pub open spec fn witness_at(s: Seq<Node>, events: Seq<Event>, x: int) -> bool {
    match events[x].round_created {
        Some(r) => r > round_at(events, s[x].self_parent),
        None => false,
    }
}

/// Whether the round `r`, at place `k` of the list of rounds, is in order:
/// it has the number `k + 1`, and its witnesses are events of the graph
/// that were created in it as witnesses.
pub open spec fn round_ok(graph: Graph, r: Round, k: int) -> bool {
    &&& r.round == k + 1
    &&& r.freq_coin_rounds == FREQ_COIN_ROUNDS
    &&& r.places@.len() == r.witnesses@.len()
    &&& r.places@.len() >= 1
    &&& forall|j: int| 0 <= j < r.places@.len() ==> #[trigger] witness_ok(graph, r, j)
    &&& r.unique_places@.len() == r.unique_famous_witnesses@.len()
    &&& forall|j: int| 0 <= j < r.unique_places@.len() ==> #[trigger] unique_ok(graph, r, j)
}

/// Whether the `j`-th witness of the round `r` is an event of the graph
/// that was created in the round as a witness.
pub open spec fn witness_ok(graph: Graph, r: Round, j: int) -> bool {
    let p = r.places@[j];
    &&& p < graph.nodes().len()
    &&& graph.nodes()[p as int].hash == r.witnesses@[j]
    &&& graph.events()[p as int].round_created == Some(r.round)
    &&& graph.events()[p as int].witness == Some(true)
}

/// Whether the `j`-th unique famous witness of the round `r` is an event of
/// the graph.
pub open spec fn unique_ok(graph: Graph, r: Round, j: int) -> bool {
    let p = r.unique_places@[j];
    &&& p < graph.nodes().len()
    &&& graph.nodes()[p as int].hash == r.unique_famous_witnesses@[j]
}

/// Whether the event at `i` has its round, which is one of the rounds, and
/// is marked a witness exactly where its round is greater than that of its
/// self-parent.
pub open spec fn placed(graph: Graph, rounds: Seq<Round>, i: int) -> bool {
    let e = graph.events()[i];
    &&& e.round_created matches Some(r) && 1 <= r <= rounds.len() && r <= i + 1
    &&& e.witness == Some(witness_at(graph.nodes(), graph.events(), i))
    &&& round_at(graph.events(), graph.nodes()[i].self_parent) <= e.round_created.unwrap()
    &&& round_at(graph.events(), graph.nodes()[i].other_parent) <= e.round_created.unwrap()
}

/// Whether every round is in order at its place in the list.
pub open spec fn rounds_fit(graph: Graph, rounds: Seq<Round>) -> bool {
    forall|k: int| 0 <= k < rounds.len() ==> round_ok(graph, #[trigger] rounds[k], k)
}

/// Whether every event before position `n` is placed in a round.
pub open spec fn placed_below(graph: Graph, rounds: Seq<Round>, n: int) -> bool {
    forall|i: int| 0 <= i < n ==> #[trigger] placed(graph, rounds, i)
}

/// The voter.
#[derive(Debug)]
pub struct Voter {
    graph: Graph,
    rounds: Vec<Round>,
}

impl Voter {
    /// The graph of the voter.
    pub closed spec fn spec_graph(&self) -> Graph {
        self.graph
    }

    /// The rounds of the voter, in order.
    pub closed spec fn spec_rounds(&self) -> Seq<Round> {
        self.rounds@
    }

    /// The invariant of the voter: the graph is in order, the rounds are
    /// numbered from 1 without a gap, and every event is placed in one.
    pub open spec fn wf(&self) -> bool {
        &&& self.spec_graph().wf()
        &&& rounds_fit(self.spec_graph(), self.spec_rounds())
        &&& placed_below(
            self.spec_graph(),
            self.spec_rounds(),
            self.spec_graph().nodes().len() as int,
        )
        &&& decided_first(self.spec_rounds())
    }

    /// A voter that knows no event.
    pub fn new() -> (voter: Voter)
        ensures
            voter.wf(),
            voter.spec_graph().nodes().len() == 0,
            voter.spec_rounds().len() == 0,
    {
        Voter { graph: Graph::new(), rounds: Vec::new() }
    }

    /// The graph.
    pub fn graph(&self) -> (out: &Graph)
        ensures
            *out == self.spec_graph(),
    {
        &self.graph
    }

    /// The rounds, in order.
    pub fn rounds(&self) -> (out: &[Round])
        ensures
            out@ == self.spec_rounds(),
    {
        self.rounds.as_slice()
    }
}


/// Whether the round `b` is the round `a` with one more witness: the event
/// with digest `h` at position `p`.
pub open spec fn gained_witness(a: Round, b: Round, h: crate::hash::Hash, p: usize) -> bool {
    &&& b.round == a.round
    &&& b.block == a.block
    &&& b.authors == a.authors
    &&& b.freq_coin_rounds == a.freq_coin_rounds
    &&& b.decided == a.decided
    &&& b.unique_famous_witnesses == a.unique_famous_witnesses
    &&& b.unique_places == a.unique_places
    &&& b.witnesses@ == a.witnesses@.push(h)
    &&& b.places@ == a.places@.push(p)
}

/// Whether `r` is a round that has just begun, with the number `round`, the
/// block number and committee `given`, and its first witness: the event
/// with digest `h` at position `p`.
pub open spec fn begun_round(
    r: Round,
    round: u64,
    given: (u64, Seq<Author>),
    h: crate::hash::Hash,
    p: usize,
) -> bool {
    &&& r.round == round
    &&& r.block == given.0
    &&& r.authors@ == given.1
    &&& r.freq_coin_rounds == FREQ_COIN_ROUNDS
    &&& !r.decided
    &&& r.unique_famous_witnesses@.len() == 0
    &&& r.unique_places@.len() == 0
    &&& r.witnesses@ == seq![h]
    &&& r.places@ == seq![p]
}

/// Whether the voter `post` is the voter `pre` after the event `event`,
/// with digest `h`, was added: the event is the last of the graph, it has
/// the round that its parents and the witnesses it strongly sees give it,
/// and where it is a witness it is the last witness of its round.
pub open spec fn added(pre: Voter, post: Voter, event: RawEvent, h: crate::hash::Hash) -> bool {
    let n = pre.spec_graph().nodes().len() as int;
    let s = post.spec_graph().nodes();
    let events = post.spec_graph().events();
    let round = round_for(s, events, n, pre.spec_rounds());
    &&& s.len() == n + 1
    &&& s.subrange(0, n) == pre.spec_graph().nodes()
    &&& s[n].hash == h
    &&& h@ == crate::crypto::digest(crate::event::preimage(event.event@))
    &&& events.len() == n + 1
    &&& events[n].raw == event
    &&& events[n].round_created == Some(round as u64)
    &&& events[n].witness == Some(witness_at(s, events, n))
    &&& events[n].famous is None
    &&& events[n].round_received is None
    &&& forall|i: int|
        0 <= i < n ==> same_but_children(#[trigger] events[i], pre.spec_graph().events()[i])
    &&& if witness_at(s, events, n) {
        witness_recorded(pre.spec_rounds(), post.spec_rounds(), round as u64, h, n as usize)
    } else {
        post.spec_rounds() == pre.spec_rounds()
    }
}

/// Whether adding an event to the voter `pre` begins a round.
pub open spec fn begins_round(pre: Voter, post: Voter) -> bool {
    post.spec_rounds().len() == pre.spec_rounds().len() + 1
}

impl Voter {
    /// How many of the witnesses of the round at place `k` the event at `x`
    /// strongly sees.
    fn count_seen(&self, x: usize, k: usize) -> (count: usize)
        requires
            self.graph.wf(),
            x < self.graph.nodes().len(),
            k < self.rounds@.len(),
            round_ok(self.graph, self.rounds@[k as int], k as int),
        ensures
            count == seen_count(
                self.graph.nodes(),
                x as int,
                self.rounds@[k as int].places@,
                self.rounds@[k as int].authors@,
                self.rounds@[k as int].places@.len() as int,
            ),
    {
        let round = &self.rounds[k];
        let mut count: usize = 0;
        let mut j: usize = 0;
        while j < round.places.len()
            invariant
                self.graph.wf(),
                x < self.graph.nodes().len(),
                *round == self.rounds@[k as int],
                j <= round.places@.len(),
                round_ok(self.graph, *round, k as int),
                count <= j,
                count == seen_count(
                    self.graph.nodes(),
                    x as int,
                    round.places@,
                    round.authors@,
                    j as int,
                ),
            decreases round.places@.len() - j,
        {
            assert(witness_ok(self.graph, *round, j as int));
            let place = round.places[j];
            if self.graph.strongly_see_at(x, place, round.authors.as_slice()) {
                count += 1;
            }
            j += 1;
        }
        count
    }

    /// The round of the parent at `p`, or 0 for no parent.
    fn round_of_parent(&self, p: Option<usize>) -> (r: u64)
        requires
            self.graph.wf(),
            p matches Some(q) ==> q < self.graph.nodes().len(),
        ensures
            r == round_at(self.graph.events(), p),
    {
        match p {
            Some(q) => match self.graph.event_at(q).round_created {
                Some(r) => r,
                None => 0,
            },
            None => 0,
        }
    }

    /// The round of the event that arrived last, and whether it is a
    /// witness.
    fn placement(&self) -> (out: (u64, bool))
        requires
            self.graph.wf(),
            self.graph.nodes().len() >= 1,
            rounds_fit(self.graph, self.rounds@),
            placed_below(self.graph, self.rounds@, self.graph.nodes().len() - 1),
        ensures
            out.0 == round_for(
                self.graph.nodes(),
                self.graph.events(),
                self.graph.nodes().len() - 1,
                self.rounds@,
            ),
            out.1 == (out.0 > round_at(self.graph.events(), self.graph.nodes().last().self_parent)),
            1 <= out.0 <= self.rounds@.len() + 1,
            out.0 <= self.graph.nodes().len(),
            round_at(self.graph.events(), self.graph.nodes().last().self_parent) <= out.0,
            round_at(self.graph.events(), self.graph.nodes().last().other_parent) <= out.0,
    {
        let n = self.graph.len() - 1;
        let node = self.graph.node_at(n);
        proof {
            lemma_graph_wf(self.graph, n as int);
            if let Some(q) = node.self_parent {
                assert(placed(self.graph, self.rounds@, q as int));
            }
            if let Some(q) = node.other_parent {
                assert(placed(self.graph, self.rounds@, q as int));
            }
        }
        let self_round = self.round_of_parent(node.self_parent);
        let other_round = self.round_of_parent(node.other_parent);
        let pr = if self_round >= other_round {
            self_round
        } else {
            other_round
        };
        let next = if pr < 1 {
            true
        } else {
            let k = (pr - 1) as usize;
            let count = self.count_seen(n, k);
            count > self.rounds[k].threshold()
        };
        if next {
            (pr + 1, pr + 1 > self_round)
        } else {
            (pr, pr > self_round)
        }
    }

    /// Records the witness with digest `hash` at position `n` in the round
    /// `round`, which it begins where there is no such round yet.
    fn record_witness<S: RoundSource>(&mut self, round: u64, hash: crate::hash::Hash, n: usize, source: &mut S)
        requires
            1 <= round <= old(self).rounds@.len() + 1,
            old(source).ready(),
        ensures
            final(source).ready(),
            final(self).graph == old(self).graph,
            witness_recorded(old(self).rounds@, final(self).rounds@, round, hash, n),
            round > old(self).rounds@.len() ==> S::started(
                *old(source),
                *final(source),
                (final(self).rounds@.last().block, final(self).rounds@.last().authors@),
            ),
            round <= old(self).rounds@.len() ==> *final(source) == *old(source),
    {
        if round <= self.rounds.len() as u64 {
            let k = (round - 1) as usize;
            self.rounds[k].witnesses.push(hash);
            self.rounds[k].places.push(n);
        } else {
            let (block, authors) = source.start_round();
            let mut begun = Round::new(round, block, authors);
            begun.witnesses.push(hash);
            begun.places.push(n);
            self.rounds.push(begun);
            assert(self.rounds@.subrange(0, old(self).rounds@.len() as int) =~= old(self).rounds@);
            assert(self.rounds@.last().witnesses@ =~= seq![hash]);
            assert(self.rounds@.last().places@ =~= seq![n]);
        }
    }

    /// Adds a signed event. The graph refuses it where a parent that it
    /// names is unknown or where it is not signed by its author; the voter
    /// is then left as it was. An event that is known already is taken for
    /// what it is: its digest comes back and nothing is changed. Any other
    /// event gets the round of its parents, or the next where there is no
    /// such round or where it strongly sees more than two thirds of that
    /// round's witnesses. It is a witness where its round is greater than its
    /// self-parent's. A witness of a round that does not exist yet begins
    /// it, with the committee that `source` gives.
    #[verifier::rlimit(40)]
    #[verifier::spinoff_prover]
    pub fn add_event<S: RoundSource>(&mut self, event: RawEvent, source: &mut S) -> (r: Result<
        crate::hash::Hash,
        Error,
    >)
        requires
            old(self).wf(),
            old(source).ready(),
        ensures
            final(self).wf(),
            final(source).ready(),
            r is Ok <==> old(self).spec_graph().admits(event),
            r matches Err(e) ==> e == Error::InvalidEvent && *final(self) == *old(self)
                && *final(source) == *old(source),
            r matches Ok(h) ==> h@ == crate::crypto::digest(crate::event::preimage(event.event@))
                && holds(final(self).spec_graph().nodes(), h) && took(
                *old(self),
                *old(source),
                event,
                *final(self),
                *final(source),
            ),
    {
        let ghost pre = *self;
        let before = self.graph.len();
        let hash = match self.graph.add_event(event) {
            Ok(hash) => hash,
            Err(e) => {
                return Err(e);
            },
        };
        if self.graph.len() == before {
            proof {
                crate::graph::lemma_graph_shape(pre.graph);
            }
            return Ok(hash);
        }
        let ghost g1 = self.graph;
        let n = self.graph.len() - 1;
        proof {
            lemma_grown(pre.graph, g1, pre.rounds@);
        }
        let (round, is_witness) = self.placement();
        if is_witness {
            self.record_witness(round, hash, n, source);
        }
        let ghost rounds2 = self.rounds@;
        self.graph.set_round(n, round, is_witness);
        proof {
            if is_witness {
                lemma_recorded_decided(pre.rounds@, rounds2, round, hash, n);
            }
            lemma_graph_wf(g1, n as int);
            lemma_placed_events(g1, self.graph, pre.rounds@, rounds2, round, is_witness);
            lemma_placed_rounds(g1, self.graph, pre.rounds@, rounds2, round, is_witness, hash, n);
            assert(self.graph.nodes().subrange(0, n as int) =~= pre.graph.nodes());
        }
        Ok(hash)
    }
}

/// Whether taking the event `event` makes of the voter `v0` and the source
/// `s0` the voter `v1` and the source `s1`. The graph must take the event.
/// Where it knows the event already, nothing is changed. Otherwise the event
/// is added, and the source is asked for a committee exactly where the event
/// begins a round.
pub open spec fn took<S: RoundSource>(v0: Voter, s0: S, event: RawEvent, v1: Voter, s1: S) -> bool {
    &&& v0.spec_graph().admits(event)
    &&& if crate::graph::knows(
        v0.spec_graph().nodes(),
        crate::crypto::digest(crate::event::preimage(event.event@)),
    ) {
        v1 == v0 && s1 == s0
    } else {
        &&& added(v0, v1, event, v1.spec_graph().nodes().last().hash)
        &&& if begins_round(v0, v1) {
            S::started(s0, s1, (v1.spec_rounds().last().block, v1.spec_rounds().last().authors@))
        } else {
            s1 == s0
        }
    }
}

/// Whether the rounds `b` are the rounds `a` after the witness with digest
/// `h` at position `p` was recorded in the round `round`.
pub open spec fn witness_recorded(
    a: Seq<Round>,
    b: Seq<Round>,
    round: u64,
    h: crate::hash::Hash,
    p: usize,
) -> bool {
    if round <= a.len() {
        &&& b.len() == a.len()
        &&& forall|k: int| 0 <= k < a.len() && k != round - 1 ==> b[k] == a[k]
        &&& gained_witness(a[round - 1], b[round - 1], h, p)
    } else {
        &&& b.len() == a.len() + 1
        &&& b.subrange(0, a.len() as int) == a
        &&& begun_round(b.last(), round, (b.last().block, b.last().authors@), h, p)
    }
}

/// Recording a witness keeps the decided rounds first.
pub proof fn lemma_recorded_decided(a: Seq<Round>, b: Seq<Round>, round: u64, h: crate::hash::Hash, p: usize)
    requires
        decided_first(a),
        1 <= round <= a.len() + 1,
        witness_recorded(a, b, round, h, p),
    ensures
        decided_first(b),
{
    assert forall|k: int, k2: int|
        0 <= k < k2 < b.len() && (#[trigger] b[k2]).decided implies (#[trigger] b[k]).decided by {
        if round <= a.len() {
            assert(b[k2].decided == a[k2].decided);
            assert(b[k].decided == a[k].decided);
        } else {
            assert(b.subrange(0, a.len() as int)[k] == b[k]);
            if k2 < a.len() {
                assert(b.subrange(0, a.len() as int)[k2] == b[k2]);
            }
        }
    }
}

/// Whether the graph `b` is the graph `a` with one more event at its end.
pub open spec fn grown(a: Graph, b: Graph) -> bool {
    let n = a.nodes().len() as int;
    &&& b.nodes().len() == n + 1
    &&& b.nodes().subrange(0, n) == a.nodes()
    &&& b.events().len() == n + 1
    &&& forall|i: int| 0 <= i < n ==> same_but_children(#[trigger] b.events()[i], a.events()[i])
}

/// Rounds and placements stay in order when an event arrives.
pub proof fn lemma_grown(a: Graph, b: Graph, rounds: Seq<Round>)
    requires
        a.wf(),
        b.wf(),
        grown(a, b),
        rounds_fit(a, rounds),
        placed_below(a, rounds, a.nodes().len() as int),
    ensures
        rounds_fit(b, rounds),
        placed_below(b, rounds, a.nodes().len() as int),
{
    let n = a.nodes().len() as int;
    let s = b.nodes();
    assert forall|i: int| 0 <= i < n implies s[i] == a.nodes()[i] by {
        assert(s.subrange(0, n)[i] == s[i]);
    }
    assert forall|i: int| 0 <= i < n implies #[trigger] placed(b, rounds, i) by {
        assert(placed(a, rounds, i));
        lemma_graph_wf(a, i);
        assert(same_but_children(b.events()[i], a.events()[i]));
        if let Some(q) = s[i].self_parent {
            assert(same_but_children(b.events()[q as int], a.events()[q as int]));
        }
        if let Some(q) = s[i].other_parent {
            assert(same_but_children(b.events()[q as int], a.events()[q as int]));
        }
    }
    assert forall|k: int| 0 <= k < rounds.len() implies round_ok(b, #[trigger] rounds[k], k) by {
        let r = rounds[k];
        assert(round_ok(a, r, k));
        assert forall|j: int| 0 <= j < r.places@.len() implies #[trigger] witness_ok(b, r, j) by {
            assert(witness_ok(a, r, j));
            let p = r.places@[j];
            assert(same_but_children(b.events()[p as int], a.events()[p as int]));
        }
        assert forall|j: int| 0 <= j < r.unique_places@.len() implies #[trigger] unique_ok(
            b,
            r,
            j,
        ) by {
            assert(unique_ok(a, r, j));
        }
    }
}

/// Whether the graph `b` is the graph `a` after the event that arrived last
/// got the round `round` and the mark `is_witness`.
pub open spec fn round_set(a: Graph, b: Graph, round: u64, is_witness: bool) -> bool {
    &&& a.nodes().len() >= 1
    &&& a.events().len() == a.nodes().len()
    &&& a.events().last().round_created is None
    &&& crate::graph::same_but_at(a, b, a.nodes().len() - 1)
    &&& b.events().last() == (Event {
        round_created: Some(round),
        witness: Some(is_witness),
        ..a.events().last()
    })
}

/// Placements are in order once the event that arrived last has its round.
#[verifier::rlimit(40)]
pub proof fn lemma_placed_events(
    a: Graph,
    b: Graph,
    rounds: Seq<Round>,
    rounds2: Seq<Round>,
    round: u64,
    is_witness: bool,
)
    requires
        a.wf(),
        round_set(a, b, round, is_witness),
        placed_below(a, rounds, a.nodes().len() - 1),
        rounds2.len() >= rounds.len(),
        1 <= round <= rounds2.len(),
        round <= a.nodes().len(),
        is_witness == (round > round_at(a.events(), a.nodes().last().self_parent)),
        round_at(a.events(), a.nodes().last().self_parent) <= round,
        round_at(a.events(), a.nodes().last().other_parent) <= round,
    ensures
        placed_below(b, rounds2, b.nodes().len() as int),
        round_at(b.events(), b.nodes().last().self_parent) == round_at(
            a.events(),
            a.nodes().last().self_parent,
        ),
        round_at(b.events(), b.nodes().last().other_parent) == round_at(
            a.events(),
            a.nodes().last().other_parent,
        ),
{
    let n = a.nodes().len() - 1;
    let s = a.nodes();
    assert forall|i: int| 0 <= i < n implies #[trigger] placed(b, rounds2, i) by {
        lemma_graph_wf(a, i);
        assert(placed(a, rounds, i));
        assert(b.events()[i] == a.events()[i]);
        if let Some(q) = s[i].self_parent {
            assert(b.events()[q as int] == a.events()[q as int]);
        }
        if let Some(q) = s[i].other_parent {
            assert(b.events()[q as int] == a.events()[q as int]);
        }
    }
    lemma_graph_wf(a, n);
    if let Some(q) = s[n].self_parent {
        assert(b.events()[q as int] == a.events()[q as int]);
    }
    if let Some(q) = s[n].other_parent {
        assert(b.events()[q as int] == a.events()[q as int]);
    }
    assert(placed(b, rounds2, n));
}

/// Rounds are in order once the event that arrived last, where it is a
/// witness, is recorded in its round.
pub proof fn lemma_placed_rounds(
    a: Graph,
    b: Graph,
    rounds: Seq<Round>,
    rounds2: Seq<Round>,
    round: u64,
    is_witness: bool,
    h: crate::hash::Hash,
    n: usize,
)
    requires
        round_set(a, b, round, is_witness),
        rounds_fit(a, rounds),
        a.nodes().last().hash == h,
        n == a.nodes().len() - 1,
        1 <= round <= rounds.len() + 1,
        if is_witness {
            witness_recorded(rounds, rounds2, round, h, n)
        } else {
            rounds2 == rounds
        },
    ensures
        rounds_fit(b, rounds2),
{
    assert forall|k: int| 0 <= k < rounds2.len() implies round_ok(b, #[trigger] rounds2[k], k) by {
        let r2 = rounds2[k];
        if k < rounds.len() {
            let r = rounds[k];
            assert(round_ok(a, r, k));
            if is_witness && k == round - 1 {
                assert(gained_witness(r, r2, h, n));
            } else {
                assert(r2 == r);
            }
            assert forall|j: int| 0 <= j < r2.places@.len() implies #[trigger] witness_ok(
                b,
                r2,
                j,
            ) by {
                if j < r.places@.len() {
                    assert(witness_ok(a, r, j));
                    let p = r.places@[j];
                    assert(r2.places@[j] == p);
                    assert(r2.witnesses@[j] == r.witnesses@[j]);
                    assert(p != n);
                    assert(b.events()[p as int] == a.events()[p as int]);
                }
            }
            assert forall|j: int| 0 <= j < r2.unique_places@.len() implies #[trigger] unique_ok(
                b,
                r2,
                j,
            ) by {
                assert(unique_ok(a, r, j));
            }
        } else {
            assert(is_witness);
            assert(r2 == rounds2.last());
            assert(witness_ok(b, r2, 0));
        }
    }
}


/// Whether the graph `b` is the graph `a` after votes were cast: the shape
/// is the same, and each event is the same but for its votes and, where it
/// was not decided, its fame.
pub open spec fn elected(a: Graph, b: Graph) -> bool {
    &&& b.nodes() == a.nodes()
    &&& b.events().len() == a.events().len()
    &&& forall|x: int|
        0 <= x < a.events().len() ==> only_election(a.events()[x], #[trigger] b.events()[x])
}

/// Whether the votes on every witness but the one with the digest `wh` are
/// in `b` what they are in `a`.
pub open spec fn other_votes_kept(a: Graph, b: Graph, wh: crate::hash::Hash) -> bool {
    forall|x: int, h: crate::hash::Hash|
        0 <= x < a.events().len() && h != wh ==> #[trigger] vote_in(b.events()[x].votes@, h)
            == vote_in(a.events()[x].votes@, h)
}

/// Casting votes keeps rounds and placements in order, and keeps the coins.
pub proof fn lemma_elected(a: Graph, b: Graph, rounds: Seq<Round>)
    requires
        a.wf(),
        elected(a, b),
        rounds_fit(a, rounds),
        placed_below(a, rounds, a.nodes().len() as int),
    ensures
        rounds_fit(b, rounds),
        placed_below(b, rounds, b.nodes().len() as int),
        coin_bits(b.events()) == coin_bits(a.events()),
{
    assert forall|i: int| 0 <= i < a.nodes().len() implies #[trigger] placed(b, rounds, i) by {
        lemma_graph_wf(a, i);
        assert(placed(a, rounds, i));
        assert(only_election(a.events()[i], b.events()[i]));
        if let Some(q) = a.nodes()[i].self_parent {
            assert(only_election(a.events()[q as int], b.events()[q as int]));
        }
        if let Some(q) = a.nodes()[i].other_parent {
            assert(only_election(a.events()[q as int], b.events()[q as int]));
        }
    }
    if a.nodes().len() > 0 {
        lemma_graph_wf(a, 0);
    }
    assert forall|k: int| 0 <= k < rounds.len() implies round_ok(b, #[trigger] rounds[k], k) by {
        let r = rounds[k];
        assert(round_ok(a, r, k));
        assert forall|j: int| 0 <= j < r.places@.len() implies #[trigger] witness_ok(b, r, j) by {
            assert(witness_ok(a, r, j));
            let p = r.places@[j];
            assert(only_election(a.events()[p as int], b.events()[p as int]));
        }
        assert forall|j: int| 0 <= j < r.unique_places@.len() implies #[trigger] unique_ok(
            b,
            r,
            j,
        ) by {
            assert(unique_ok(a, r, j));
        }
    }
    assert forall|v: int| 0 <= v < a.events().len() implies coin_bits(b.events())[v] == coin_bits(
        a.events(),
    )[v] by {
        assert(only_election(a.events()[v], b.events()[v]));
    }
    assert(coin_bits(b.events()) =~= coin_bits(a.events()));
}

/// Casting votes, and then casting more, is casting votes.
pub proof fn lemma_elected_twice(a: Graph, b: Graph, c: Graph)
    requires
        elected(a, b),
        elected(b, c),
    ensures
        elected(a, c),
{
    assert forall|x: int| 0 <= x < a.events().len() implies only_election(
        a.events()[x],
        #[trigger] c.events()[x],
    ) by {
        assert(only_election(a.events()[x], b.events()[x]));
        assert(only_election(b.events()[x], c.events()[x]));
    }
}

impl Voter {
    /// Of the witnesses of the round at place `k` that the event at `v`
    /// strongly sees: how many have a yes recorded on the witness with
    /// digest `wh`, and how many there are.
    fn tally(&self, k: usize, v: usize, wh: &crate::hash::Hash) -> (out: (usize, usize))
        requires
            self.graph.wf(),
            v < self.graph.nodes().len(),
            k < self.rounds@.len(),
            round_ok(self.graph, self.rounds@[k as int], k as int),
        ensures
            out.0 == stored_yes(
                self.graph.nodes(),
                self.graph.events(),
                committees(self.rounds@),
                k as int,
                v as int,
                *wh,
                self.rounds@[k as int].places@.len() as int,
            ),
            out.1 == seen_in(self.graph.nodes(), committees(self.rounds@), k as int, v as int),
            out.0 <= out.1,
    {
        let round = &self.rounds[k];
        let mut yes: usize = 0;
        let mut all: usize = 0;
        let mut j: usize = 0;
        while j < round.places.len()
            invariant
                self.graph.wf(),
                v < self.graph.nodes().len(),
                k < self.rounds@.len(),
                *round == self.rounds@[k as int],
                j <= round.places@.len(),
                round_ok(self.graph, *round, k as int),
                yes <= all <= j,
                yes == stored_yes(
                    self.graph.nodes(),
                    self.graph.events(),
                    committees(self.rounds@),
                    k as int,
                    v as int,
                    *wh,
                    j as int,
                ),
                all == seen_count(
                    self.graph.nodes(),
                    v as int,
                    round.places@,
                    round.authors@,
                    j as int,
                ),
            decreases round.places@.len() - j,
        {
            assert(witness_ok(self.graph, *round, j as int));
            let place = round.places[j];
            if self.graph.strongly_see_at(v, place, round.authors.as_slice()) {
                all += 1;
                match self.graph.event_at(place).vote(wh) {
                    Some(true) => {
                        yes += 1;
                    },
                    _ => {},
                }
            }
            j += 1;
        }
        (yes, all)
    }

    /// The coin of the event at `v`: the lowest bit of byte 32 of its
    /// signature.
    fn coin(&self, v: usize) -> (bit: bool)
        requires
            self.graph.wf(),
            v < self.graph.nodes().len(),
        ensures
            bit == coin_bits(self.graph.events())[v as int],
    {
        proof {
            lemma_graph_wf(self.graph, v as int);
        }
        let bytes = self.graph.event_at(v).raw.signature.to_bytes();
        proof {
            crate::author::lemma_signature_ext(
                self.graph.events()[v as int].raw.signature,
                self.graph.events()[v as int].raw.signature,
            );
        }
        bytes[32] & 1 == 1
    }

    /// Lets the `j`-th witness of the round at place `r` vote on the fame of
    /// the witness at `w`, of the round at place `i`, and decide it where
    /// its vote does.
    fn cast(&mut self, i: usize, r: usize, j: usize, w: usize)
        requires
            old(self).graph.wf(),
            rounds_fit(old(self).graph, old(self).rounds@),
            placed_below(
                old(self).graph,
                old(self).rounds@,
                old(self).graph.nodes().len() as int,
            ),
            i < r < old(self).rounds@.len(),
            j < old(self).rounds@[r as int].places@.len(),
            w < old(self).graph.nodes().len(),
            votes_cast(
                old(self).graph.nodes(),
                old(self).graph.events(),
                coin_bits(old(self).graph.events()),
                committees(old(self).rounds@),
                i as int,
                w as int,
                r as int,
                j as int,
            ),
        ensures
            final(self).graph.wf(),
            final(self).rounds == old(self).rounds,
            elected(old(self).graph, final(self).graph),
            votes_cast(
                old(self).graph.nodes(),
                final(self).graph.events(),
                coin_bits(old(self).graph.events()),
                committees(old(self).rounds@),
                i as int,
                w as int,
                r as int,
                j + 1,
            ),
            final(self).graph.events()[w as int].famous
                == (match old(self).graph.events()[w as int].famous {
                Some(f) => Some(f),
                None => if decides(
                    old(self).graph.nodes(),
                    coin_bits(old(self).graph.events()),
                    committees(old(self).rounds@),
                    i as int,
                    r as int,
                    old(self).rounds@[r as int].places@[j as int] as int,
                    w as int,
                ) {
                    Some(
                        vote_of(
                            old(self).graph.nodes(),
                            coin_bits(old(self).graph.events()),
                            committees(old(self).rounds@),
                            i as int,
                            r as int,
                            old(self).rounds@[r as int].places@[j as int] as int,
                            w as int,
                        ),
                    )
                } else {
                    None
                },
            }),
            forall|x: int|
                0 <= x < old(self).graph.events().len() && x != w
                    ==> final(self).graph.events()[x].famous == old(self).graph.events()[x].famous,
            other_votes_kept(
                old(self).graph,
                final(self).graph,
                old(self).graph.nodes()[w as int].hash,
            ),
    {
        let ghost g0 = self.graph;
        let ghost s = self.graph.nodes();
        let ghost coins = coin_bits(self.graph.events());
        let ghost rounds = self.rounds@;
        proof {
            assert(round_ok(g0, rounds[r as int], r as int));
            assert(witness_ok(g0, rounds[r as int], j as int));
            lemma_graph_wf(g0, w as int);
        }
        let v = self.rounds[r].places[j];
        let wh = self.graph.node_at(w).hash;
        let mut decided: Option<bool> = None;
        let vote = if r == i + 1 {
            self.graph.see_at(v, w)
        } else {
            proof {
                assert(round_ok(g0, rounds[r - 1], r - 1));
                assert forall|j2: int| 0 <= j2 < committees(rounds)[r - 1].places.len()
                    implies #[trigger] cast_ok(
                    s,
                    g0.events(),
                    coins,
                    committees(rounds),
                    i as int,
                    w as int,
                    r - 1,
                    j2,
                ) by {}
                lemma_stored_yes(
                    s,
                    g0.events(),
                    coins,
                    committees(rounds),
                    i as int,
                    w as int,
                    r - 1,
                    v as int,
                    rounds[r - 1].places@.len() as int,
                );
            }
            let (yes, all) = self.tally(r - 1, v, &wh);
            let no = all - yes;
            let maj = yes >= no;
            let num = if yes >= no {
                yes
            } else {
                no
            };
            let normal = (r - i) % FREQ_COIN_ROUNDS != 0;
            let strong = num > self.rounds[r].threshold();
            if normal && strong {
                decided = Some(maj);
            }
            if normal || strong {
                maj
            } else {
                self.coin(v)
            }
        };
        assert(vote
            == vote_of(s, coins, committees(rounds), i as int, r as int, v as int, w as int));
        assert(decided is Some
            == decides(s, coins, committees(rounds), i as int, r as int, v as int, w as int));
        self.graph.set_vote(v, wh, vote);
        let ghost g1 = self.graph;
        if let Some(famous) = decided {
            self.graph.set_famous(w, famous);
        }
        let ghost g2 = self.graph;
        proof {
            assert forall|x: int| 0 <= x < g0.events().len() implies only_election(
                g0.events()[x],
                #[trigger] g2.events()[x],
            ) by {
                if x != v {
                    assert(g1.events()[x] == g0.events()[x]);
                }
                if x != w {
                    assert(g2.events()[x] == g1.events()[x]);
                }
            }
            assert forall|r2: int, j2: int|
                i < r2 < rounds.len() && 0 <= j2 < rounds[r2].places@.len() && (r2 < r || (r2 == r
                    && j2 < j + 1)) implies #[trigger] cast_ok(
                s,
                g2.events(),
                coins,
                committees(rounds),
                i as int,
                w as int,
                r2,
                j2,
            ) by {
                let v2 = rounds[r2].places@[j2] as int;
                assert(round_ok(g0, rounds[r2], r2));
                assert(witness_ok(g0, rounds[r2], j2));
                assert(g2.events()[v2].votes == g1.events()[v2].votes);
                if v2 == v {
                    assert(r2 == r);
                } else {
                    assert(g1.events()[v2] == g0.events()[v2]);
                    assert(cast_ok(s, g0.events(), coins, committees(rounds), i as int, w as int, r2, j2));
                }
            }
            assert forall|x: int, h: crate::hash::Hash|
                0 <= x < g0.events().len() && h != wh implies #[trigger] vote_in(
                g2.events()[x].votes@,
                h,
            ) == vote_in(g0.events()[x].votes@, h) by {
                assert(g2.events()[x].votes == g1.events()[x].votes);
                if x != v {
                    assert(g1.events()[x] == g0.events()[x]);
                }
            }
        }
    }
}


/// Whether the fame of the `k`-th witness of the round at place `i` is what
/// the election gives: what it was where it was decided in `a`, else the
/// decision of the later witnesses.
pub open spec fn fame_settled(a: Graph, b: Graph, rounds: Seq<Round>, i: int, k: int) -> bool {
    let w = rounds[i].places@[k] as int;
    b.events()[w].famous == (match a.events()[w].famous {
        Some(f) => Some(f),
        None => decision(a.nodes(), coin_bits(a.events()), committees(rounds), i, w),
    })
}

/// Whether the votes on the `k`-th witness of the round at place `i` are
/// recorded in `b`: where its fame was not decided in `a`, every witness of
/// a later round has its vote on it recorded.
pub open spec fn votes_settled(a: Graph, b: Graph, rounds: Seq<Round>, i: int, k: int) -> bool {
    let w = rounds[i].places@[k] as int;
    a.events()[w].famous is None ==> votes_cast(
        a.nodes(),
        b.events(),
        coin_bits(a.events()),
        committees(rounds),
        i,
        w,
        rounds.len() as int,
        0,
    )
}

/// Whether the fame of every witness of the round `r` is decided.
pub open spec fn all_decided(graph: Graph, r: Round) -> bool {
    forall|j: int|
        0 <= j < r.places@.len() ==> graph.events()[#[trigger] r.places@[j] as int].famous is Some
}

/// Whether the event at `x` is none of the first `n` witnesses of the round
/// `r`.
pub open spec fn not_among(r: Round, n: int, x: int) -> bool {
    forall|k: int| 0 <= k < n ==> #[trigger] r.places@[k] != x
}

/// The election on one witness keeps the votes that were recorded on the
/// witnesses before it. `a` is the graph before the elections of the round at
/// place `i`, `b` the graph before the election on its `k`-th witness, and
/// `c` the graph after it.
pub proof fn lemma_votes_kept(a: Graph, b: Graph, c: Graph, rounds: Seq<Round>, i: int, k: int)
    requires
        a.wf(),
        0 <= i < rounds.len(),
        0 <= k < rounds[i].places@.len(),
        rounds_fit(a, rounds),
        elected(a, b),
        b.events()[rounds[i].places@[k] as int].famous is None,
        forall|k2: int| 0 <= k2 < k ==> #[trigger] votes_settled(a, b, rounds, i, k2),
        other_votes_kept(b, c, a.nodes()[rounds[i].places@[k] as int].hash),
        votes_cast(
            a.nodes(),
            c.events(),
            coin_bits(b.events()),
            committees(rounds),
            i,
            rounds[i].places@[k] as int,
            rounds.len() as int,
            0,
        ),
        coin_bits(b.events()) == coin_bits(a.events()),
    ensures
        forall|k2: int| 0 <= k2 < k + 1 ==> #[trigger] votes_settled(a, c, rounds, i, k2),
{
    let s = a.nodes();
    let w = rounds[i].places@[k] as int;
    let coins = coin_bits(a.events());
    let c2 = committees(rounds);
    crate::graph::lemma_graph_shape(a);
    assert(round_ok(a, rounds[i], i));
    assert(witness_ok(a, rounds[i], k));
    assert forall|k2: int| 0 <= k2 < k + 1
        implies #[trigger] votes_settled(a, c, rounds, i, k2) by {
        let w2 = rounds[i].places@[k2] as int;
        assert(witness_ok(a, rounds[i], k2));
        if a.events()[w2].famous is None {
            if w2 == w {
            } else {
                assert(votes_settled(a, b, rounds, i, k2));
                assert(s[w2].hash != s[w].hash);
                assert forall|r2: int, j2: int|
                    i < r2 < c2.len() && 0 <= j2 < c2[r2].places.len() && (r2 < rounds.len() || (r2
                        == rounds.len() && j2 < 0)) implies #[trigger] cast_ok(
                    s,
                    c.events(),
                    coins,
                    c2,
                    i,
                    w2,
                    r2,
                    j2,
                ) by {
                    assert(cast_ok(s, b.events(), coins, c2, i, w2, r2, j2));
                    assert(round_ok(a, rounds[r2], r2));
                    assert(witness_ok(a, rounds[r2], j2));
                    let v = c2[r2].places[j2] as int;
                    assert(vote_in(c.events()[v].votes@, s[w2].hash) == vote_in(
                        b.events()[v].votes@,
                        s[w2].hash,
                    ));
                }
            }
        }
    }
}

impl Voter {
    /// Holds the election on the fame of the witness at `w`, of the round
    /// at place `i`: every witness of a later round votes, in the order of
    /// rounds and of arrival, and the first vote that decides is the
    /// decision.
    fn elect(&mut self, i: usize, w: usize)
        requires
            old(self).wf(),
            i < old(self).rounds@.len(),
            w < old(self).graph.nodes().len(),
            old(self).graph.events()[w as int].famous is None,
        ensures
            final(self).wf(),
            final(self).rounds == old(self).rounds,
            elected(old(self).graph, final(self).graph),
            final(self).graph.events()[w as int].famous == decision(
                old(self).graph.nodes(),
                coin_bits(old(self).graph.events()),
                committees(old(self).rounds@),
                i as int,
                w as int,
            ),
            votes_cast(
                old(self).graph.nodes(),
                final(self).graph.events(),
                coin_bits(old(self).graph.events()),
                committees(old(self).rounds@),
                i as int,
                w as int,
                old(self).rounds@.len() as int,
                0,
            ),
            forall|x: int|
                0 <= x < old(self).graph.events().len() && x != w
                    ==> final(self).graph.events()[x].famous == old(self).graph.events()[x].famous,
            other_votes_kept(
                old(self).graph,
                final(self).graph,
                old(self).graph.nodes()[w as int].hash,
            ),
    {
        let ghost g0 = self.graph;
        let ghost s = self.graph.nodes();
        let ghost coins = coin_bits(self.graph.events());
        let ghost rounds = self.rounds@;
        let n = self.rounds.len();
        let mut r: usize = i + 1;
        proof {
            if s.len() > 0 {
                lemma_graph_wf(g0, 0);
            }
        }
        while r < n
            invariant
                i < r <= n,
                n == rounds.len(),
                self.rounds@ == rounds,
                self.rounds == old(self).rounds,
                self.graph.wf(),
                g0.wf(),
                g0.events().len() == s.len(),
                w < s.len(),
                self.graph.nodes() == s,
                elected(g0, self.graph),
                rounds_fit(g0, rounds),
                placed_below(g0, rounds, s.len() as int),
                coins == coin_bits(g0.events()),
                s == g0.nodes(),
                votes_cast(s, self.graph.events(), coins, committees(rounds), i as int, w as int, r as int, 0),
                self.graph.events()[w as int].famous == decision_before(
                    s,
                    coins,
                    committees(rounds),
                    i as int,
                    w as int,
                    r as int,
                    0,
                ),
                forall|x: int|
                    0 <= x < g0.events().len() && x != w ==> self.graph.events()[x].famous
                        == g0.events()[x].famous,
                other_votes_kept(g0, self.graph, s[w as int].hash),
            decreases n - r,
        {
            let m = self.rounds[r].places.len();
            let mut j: usize = 0;
            while j < m
                invariant
                    i < r < n,
                    j <= m,
                    m == rounds[r as int].places@.len(),
                    n == rounds.len(),
                    self.rounds@ == rounds,
                    self.rounds == old(self).rounds,
                    self.graph.wf(),
                    g0.wf(),
                    g0.events().len() == s.len(),
                    w < s.len(),
                    self.graph.nodes() == s,
                    elected(g0, self.graph),
                    rounds_fit(g0, rounds),
                    placed_below(g0, rounds, s.len() as int),
                    coins == coin_bits(g0.events()),
                    s == g0.nodes(),
                    votes_cast(
                        s,
                        self.graph.events(),
                        coins,
                        committees(rounds),
                        i as int,
                        w as int,
                        r as int,
                        j as int,
                    ),
                    self.graph.events()[w as int].famous == decision_before(
                        s,
                        coins,
                        committees(rounds),
                        i as int,
                        w as int,
                        r as int,
                        j as int,
                    ),
                    forall|x: int|
                        0 <= x < g0.events().len() && x != w ==> self.graph.events()[x].famous
                            == g0.events()[x].famous,
                    other_votes_kept(g0, self.graph, s[w as int].hash),
                decreases m - j,
            {
                let ghost g1 = self.graph;
                proof {
                    lemma_elected(g0, g1, rounds);
                }
                self.cast(i, r, j, w);
                proof {
                    lemma_elected_twice(g0, g1, self.graph);
                    let g2 = self.graph;
                    assert forall|x: int, h: crate::hash::Hash|
                        0 <= x < g0.events().len() && h != s[w as int].hash
                            implies #[trigger] vote_in(
                        g2.events()[x].votes@,
                        h,
                    ) == vote_in(g0.events()[x].votes@, h) by {
                        assert(vote_in(g1.events()[x].votes@, h) == vote_in(
                            g0.events()[x].votes@,
                            h,
                        ));
                        assert(vote_in(g2.events()[x].votes@, h) == vote_in(
                            g1.events()[x].votes@,
                            h,
                        ));
                    }
                }
                j += 1;
            }
            r += 1;
        }
        proof {
            lemma_elected(g0, self.graph, rounds);
        }
    }

    /// Holds the elections on the fame of the undecided witnesses of the
    /// round at place `i`, and says whether the fame of every witness of the
    /// round is decided.
    pub fn decide_fame(&mut self, i: usize) -> (all: bool)
        requires
            old(self).wf(),
            i < old(self).spec_rounds().len(),
        ensures
            final(self).wf(),
            final(self).spec_rounds() == old(self).spec_rounds(),
            elected(old(self).spec_graph(), final(self).spec_graph()),
            forall|k: int|
                0 <= k < old(self).spec_rounds()[i as int].places@.len()
                    ==> #[trigger] fame_settled(
                    old(self).spec_graph(),
                    final(self).spec_graph(),
                    old(self).spec_rounds(),
                    i as int,
                    k,
                ),
            forall|k: int|
                0 <= k < old(self).spec_rounds()[i as int].places@.len()
                    ==> #[trigger] votes_settled(
                    old(self).spec_graph(),
                    final(self).spec_graph(),
                    old(self).spec_rounds(),
                    i as int,
                    k,
                ),
            forall|x: int|
                0 <= x < old(self).spec_graph().events().len() && not_among(
                    old(self).spec_rounds()[i as int],
                    old(self).spec_rounds()[i as int].places@.len() as int,
                    x,
                ) ==> final(self).spec_graph().events()[x].famous
                    == old(self).spec_graph().events()[x].famous,
            all == all_decided(final(self).spec_graph(), old(self).spec_rounds()[i as int]),
    {
        let ghost g0 = self.graph;
        let ghost s = self.graph.nodes();
        let ghost coins = coin_bits(self.graph.events());
        let ghost rounds = self.rounds@;
        let m = self.rounds[i].places.len();
        let mut k: usize = 0;
        proof {
            assert(round_ok(g0, rounds[i as int], i as int));
            assert(witness_ok(g0, rounds[i as int], 0));
            lemma_graph_wf(g0, 0);
        }
        while k < m
            invariant
                k <= m,
                i < rounds.len(),
                m == rounds[i as int].places@.len(),
                self.rounds@ == rounds,
                self.wf(),
                g0.wf(),
                g0.events().len() == s.len(),
                s == g0.nodes(),
                self.graph.nodes() == s,
                coins == coin_bits(g0.events()),
                rounds_fit(g0, rounds),
                placed_below(g0, rounds, s.len() as int),
                elected(g0, self.graph),
                forall|k2: int|
                    0 <= k2 < k ==> #[trigger] fame_settled(g0, self.graph, rounds, i as int, k2),
                forall|k2: int|
                    0 <= k2 < k ==> #[trigger] votes_settled(g0, self.graph, rounds, i as int, k2),
                forall|x: int|
                    0 <= x < s.len() && not_among(rounds[i as int], k as int, x)
                        ==> self.graph.events()[x].famous == g0.events()[x].famous,
            decreases m - k,
        {
            let ghost g1 = self.graph;
            proof {
                assert(round_ok(g0, rounds[i as int], i as int));
                assert(witness_ok(g0, rounds[i as int], k as int));
                lemma_elected(g0, g1, rounds);
            }
            let w = self.rounds[i].places[k];
            proof {
                assert(only_election(g0.events()[w as int], g1.events()[w as int]));
            }
            if self.graph.event_at(w).famous.is_none() {
                self.elect(i, w);
                proof {
                    lemma_elected_twice(g0, g1, self.graph);
                    lemma_votes_kept(g0, g1, self.graph, rounds, i as int, k as int);
                }
            } else {
                proof {
                    if g0.events()[w as int].famous is None {
                        assert(!not_among(rounds[i as int], k as int, w as int));
                        let k2 = choose|k2: int|
                            0 <= k2 < k && rounds[i as int].places@[k2] == w as int;
                        assert(fame_settled(g0, g1, rounds, i as int, k2));
                    }
                }
            }
            proof {
                let g2 = self.graph;
                if g0.events()[w as int].famous is None && g1.events()[w as int].famous is Some {
                    assert(!not_among(rounds[i as int], k as int, w as int));
                    let k2 = choose|k2: int|
                        0 <= k2 < k && rounds[i as int].places@[k2] == w as int;
                    assert(votes_settled(g0, g1, rounds, i as int, k2));
                }
                assert(votes_settled(g0, g2, rounds, i as int, k as int));
                assert forall|k2: int| 0 <= k2 < k + 1 implies #[trigger] votes_settled(
                    g0,
                    g2,
                    rounds,
                    i as int,
                    k2,
                ) by {
                    if k2 < k {
                        assert(votes_settled(g0, g1, rounds, i as int, k2));
                    }
                }
                assert(fame_settled(g0, g2, rounds, i as int, k as int));
                assert forall|k2: int| 0 <= k2 < k + 1 implies #[trigger] fame_settled(
                    g0,
                    g2,
                    rounds,
                    i as int,
                    k2,
                ) by {
                    if k2 < k {
                        assert(fame_settled(g0, g1, rounds, i as int, k2));
                        assert(witness_ok(g0, rounds[i as int], k2));
                    }
                }
                assert forall|x: int|
                    0 <= x < s.len() && not_among(rounds[i as int], k + 1, x)
                        implies g2.events()[x].famous
                    == g0.events()[x].famous by {
                    assert(rounds[i as int].places@[k as int] != x);
                    assert(not_among(rounds[i as int], k as int, x));
                }
            }
            k += 1;
        }
        let mut decided = true;
        let mut k: usize = 0;
        let ghost g2 = self.graph;
        while k < m
            invariant
                k <= m,
                i < rounds.len(),
                m == rounds[i as int].places@.len(),
                self.rounds@ == rounds,
                self.graph == g2,
                self.wf(),
                decided == forall|k2: int|
                    0 <= k2 < k
                        ==> g2.events()[#[trigger] rounds[i as int].places@[k2] as int].famous
                        is Some,
            decreases m - k,
        {
            proof {
                assert(round_ok(g2, rounds[i as int], i as int));
                assert(witness_ok(g2, rounds[i as int], k as int));
            }
            let w = self.rounds[i].places[k];
            if self.graph.event_at(w).famous.is_none() {
                decided = false;
            }
            k += 1;
        }
        decided
    }
}


/// Whether the decided rounds come first in the list of rounds.
pub open spec fn decided_first(rounds: Seq<Round>) -> bool {
    forall|k: int, k2: int|
        0 <= k < k2 < rounds.len() && (#[trigger] rounds[k2]).decided
            ==> (#[trigger] rounds[k]).decided
}

/// Deriving more of the events keeps rounds and placements in order.
pub proof fn lemma_kept(a: Graph, b: Graph, rounds: Seq<Round>)
    requires
        a.wf(),
        graph_kept(a, b),
        rounds_fit(a, rounds),
        placed_below(a, rounds, a.nodes().len() as int),
    ensures
        rounds_fit(b, rounds),
        placed_below(b, rounds, b.nodes().len() as int),
{
    assert forall|i: int| 0 <= i < a.nodes().len() implies #[trigger] placed(b, rounds, i) by {
        lemma_graph_wf(a, i);
        assert(placed(a, rounds, i));
        assert(derived_kept(a.events()[i], b.events()[i]));
        if let Some(q) = a.nodes()[i].self_parent {
            assert(placed(a, rounds, q as int));
            assert(derived_kept(a.events()[q as int], b.events()[q as int]));
        }
        if let Some(q) = a.nodes()[i].other_parent {
            assert(placed(a, rounds, q as int));
            assert(derived_kept(a.events()[q as int], b.events()[q as int]));
        }
    }
    assert forall|k: int| 0 <= k < rounds.len() implies round_ok(b, #[trigger] rounds[k], k) by {
        let r = rounds[k];
        assert(round_ok(a, r, k));
        assert forall|j: int| 0 <= j < r.places@.len() implies #[trigger] witness_ok(b, r, j) by {
            assert(witness_ok(a, r, j));
            let p = r.places@[j];
            lemma_graph_wf(a, p as int);
            assert(derived_kept(a.events()[p as int], b.events()[p as int]));
        }
        assert forall|j: int| 0 <= j < r.unique_places@.len() implies #[trigger] unique_ok(
            b,
            r,
            j,
        ) by {
            assert(unique_ok(a, r, j));
        }
    }
}

/// Whether the round `b` is the round `a`, closed: it is decided, and its
/// unique famous witnesses are those that the fame of its witnesses gives.
pub open spec fn closed_round(graph: Graph, a: Round, b: Round) -> bool {
    &&& b.round == a.round
    &&& b.block == a.block
    &&& b.authors == a.authors
    &&& b.freq_coin_rounds == a.freq_coin_rounds
    &&& b.witnesses == a.witnesses
    &&& b.places == a.places
    &&& b.decided
    &&& b.unique_places@ == unique_famous(
        graph.nodes(),
        fames(graph.events()),
        a.places@,
        a.places@.len() as int,
    )
    &&& b.unique_famous_witnesses@.len() == b.unique_places@.len()
}

impl Voter {
    /// How many witnesses of the round at place `i` are by `author`.
    fn count_author(&self, i: usize, author: &Author) -> (count: usize)
        requires
            self.graph.wf(),
            i < self.rounds@.len(),
            round_ok(self.graph, self.rounds@[i as int], i as int),
        ensures
            count == author_witnesses(
                self.graph.nodes(),
                self.rounds@[i as int].places@,
                *author,
                self.rounds@[i as int].places@.len() as int,
            ),
    {
        let round = &self.rounds[i];
        let mut count: usize = 0;
        let mut j: usize = 0;
        while j < round.places.len()
            invariant
                *round == self.rounds@[i as int],
                round_ok(self.graph, *round, i as int),
                j <= round.places@.len(),
                count <= j,
                count == author_witnesses(self.graph.nodes(), round.places@, *author, j as int),
            decreases round.places@.len() - j,
        {
            assert(witness_ok(self.graph, *round, j as int));
            if self.graph.node_at(round.places[j]).author == *author {
                count += 1;
            }
            j += 1;
        }
        count
    }

    /// Closes the round at place `i`: marks it decided and lists its unique
    /// famous witnesses, the famous witnesses whose author has no other
    /// witness in the round.
    fn close_round(&mut self, i: usize)
        requires
            old(self).graph.wf(),
            rounds_fit(old(self).graph, old(self).rounds@),
            i < old(self).rounds@.len(),
        ensures
            final(self).graph == old(self).graph,
            rounds_fit(final(self).graph, final(self).rounds@),
            final(self).rounds@.len() == old(self).rounds@.len(),
            forall|k: int|
                0 <= k < old(self).rounds@.len() && k != i
                    ==> final(self).rounds@[k] == old(self).rounds@[k],
            closed_round(old(self).graph, old(self).rounds@[i as int], final(self).rounds@[i as int]),
    {
        let ghost s = self.graph.nodes();
        let ghost events = self.graph.events();
        let ghost round0 = self.rounds@[i as int];
        let ghost places = round0.places@;
        let m = self.rounds[i].places.len();
        let mut unique: Vec<usize> = Vec::new();
        let mut hashes: Vec<crate::hash::Hash> = Vec::new();
        let mut j: usize = 0;
        proof {
            assert(round_ok(self.graph, round0, i as int));
            assert(witness_ok(self.graph, round0, 0));
            lemma_graph_wf(self.graph, 0);
        }
        while j < m
            invariant
                j <= m,
                m == places.len(),
                events.len() == s.len(),
                i < self.rounds@.len(),
                self.rounds@ == old(self).rounds@,
                self.graph == old(self).graph,
                self.graph.wf(),
                round0 == self.rounds@[i as int],
                places == round0.places@,
                s == self.graph.nodes(),
                events == self.graph.events(),
                round_ok(self.graph, round0, i as int),
                unique@ == unique_famous(s, fames(events), places, j as int),
                hashes@.len() == unique@.len(),
                forall|t: int|
                    0 <= t < unique@.len() ==> (#[trigger] unique@[t]) < s.len() && hashes@[t]
                        == s[unique@[t] as int].hash,
            decreases m - j,
        {
            assert(witness_ok(self.graph, round0, j as int));
            let p = self.rounds[i].places[j];
            let famous = match self.graph.event_at(p).famous {
                Some(true) => true,
                _ => false,
            };
            if famous {
                let node = self.graph.node_at(p);
                if self.count_author(i, &node.author) == 1 {
                    unique.push(p);
                    hashes.push(node.hash);
                }
            }
            j += 1;
        }
        self.rounds[i].decided = true;
        self.rounds[i].unique_places = unique;
        self.rounds[i].unique_famous_witnesses = hashes;
        proof {
            let g = self.graph;
            assert forall|k: int| 0 <= k < self.rounds@.len() implies round_ok(
                g,
                #[trigger] self.rounds@[k],
                k,
            ) by {
                let r = self.rounds@[k];
                assert(round_ok(g, old(self).rounds@[k], k));
                if k == i {
                    assert forall|t: int| 0 <= t < r.places@.len() implies #[trigger] witness_ok(
                        g,
                        r,
                        t,
                    ) by {
                        assert(witness_ok(g, round0, t));
                    }
                    assert forall|t: int| 0 <= t < r.unique_places@.len()
                        implies #[trigger] unique_ok(
                        g,
                        r,
                        t,
                    ) by {
                        assert(r.unique_places@[t] < s.len());
                    }
                }
            }
        }
    }
}


/// Whether `plan` holds, for each event that the round with the unique
/// famous witnesses `ufw` newly receives, its position, consensus time and
/// whitened signature.
pub open spec fn planned(
    s: Seq<Node>,
    events: Seq<Event>,
    ufw: Seq<usize>,
    plan: Seq<(usize, u128, [u8; 64])>,
    n: int,
) -> bool {
    &&& plan.len() == newly_received(s, rounds_received(events), ufw, n).len()
    &&& forall|t: int|
        0 <= t < plan.len() ==> {
            &&& (#[trigger] plan[t]).0 == newly_received(s, rounds_received(events), ufw, n)[t]
            &&& plan[t].1 == consensus_time(s, claimed_times(events), ufw, plan[t].0 as int)
            &&& plan[t].2@ == whitened(signatures(events), ufw, plan[t].0 as int)
        }
}

/// Whether the graph `b` is the graph `a` after the round `round`, with
/// the unique famous witnesses `ufw`, received the events that it newly
/// receives.
pub open spec fn delivered(a: Graph, b: Graph, ufw: Seq<usize>, round: u64) -> bool {
    &&& b.nodes() == a.nodes()
    &&& b.events().len() == a.events().len()
    &&& forall|x: int|
        0 <= x < a.events().len() ==> #[trigger] delivered_at(a, b, ufw, round, x)
}

/// Whether the event at `x` of the graph `b` is that of the graph `a`,
/// received by the round `round` where the round newly receives it.
pub open spec fn delivered_at(a: Graph, b: Graph, ufw: Seq<usize>, round: u64, x: int) -> bool {
    if a.events()[x].round_received is None && receives(a.nodes(), ufw, x) {
        received_as(
            a.nodes(),
            claimed_times(a.events()),
            signatures(a.events()),
            ufw,
            round,
            x,
            a.events()[x],
            b.events()[x],
        )
    } else {
        b.events()[x] == a.events()[x]
    }
}

impl Voter {
    /// For each event, whether it is an ancestor of every unique famous
    /// witness of the round at place `i`.
    fn shared_marks(&self, i: usize) -> (marks: Vec<bool>)
        requires
            self.graph.wf(),
            i < self.rounds@.len(),
            round_ok(self.graph, self.rounds@[i as int], i as int),
        ensures
            marks@.len() == self.graph.nodes().len(),
            forall|x: int|
                0 <= x < marks@.len() ==> marks@[x] == shared_by(
                    self.graph.nodes(),
                    self.rounds@[i as int].unique_places@,
                    self.rounds@[i as int].unique_places@.len() as int,
                    x,
                ),
    {
        let ghost s = self.graph.nodes();
        let round = &self.rounds[i];
        let ghost ufw = round.unique_places@;
        let n = self.graph.len();
        let mut marks: Vec<bool> = Vec::new();
        let mut x: usize = 0;
        while x < n
            invariant
                x <= n,
                marks@.len() == x,
                forall|y: int| 0 <= y < x ==> marks@[y],
            decreases n - x,
        {
            marks.push(true);
            x += 1;
        }
        let mut k: usize = 0;
        while k < round.unique_places.len()
            invariant
                self.graph.wf(),
                s == self.graph.nodes(),
                n == s.len(),
                i < self.rounds@.len(),
                *round == self.rounds@[i as int],
                ufw == round.unique_places@,
                round_ok(self.graph, *round, i as int),
                k <= ufw.len(),
                marks@.len() == n,
                forall|y: int| 0 <= y < n ==> marks@[y] == shared_by(s, ufw, k as int, y),
            decreases ufw.len() - k,
        {
            assert(unique_ok(self.graph, *round, k as int));
            let up = self.graph.mark_ancestors(round.unique_places[k]);
            let ghost before = marks@;
            let mut y: usize = 0;
            while y < n
                invariant
                    y <= n,
                    n == s.len(),
                    marks@.len() == n,
                    up@.len() == n,
                    before.len() == n,
                    forall|z: int|
                        #![trigger marks@[z]]
                        0 <= z < y ==> (marks@[z] <==> (before[z] && up@[z])),
                    forall|z: int| #![trigger marks@[z]] y <= z < n ==> marks@[z] == before[z],
                decreases n - y,
            {
                let ghost prior = marks@;
                let keep = marks[y] && up[y];
                marks.set(y, keep);
                proof {
                    assert(marks@ == prior.update(y as int, keep));
                    assert(prior[y as int] == before[y as int]);
                    assert(keep == (before[y as int] && up@[y as int]));
                    assert(marks@[y as int] == keep);
                    assert forall|z: int| 0 <= z < y + 1 implies (#[trigger] marks@[z] <==> (
                    before[z] && up@[z])) by {
                        if z < y {
                            assert(marks@[z] == prior[z]);
                        }
                    }
                }
                y += 1;
            }
            proof {
                assert forall|y: int| 0 <= y < n implies marks@[y] == shared_by(
                    s,
                    ufw,
                    k + 1,
                    y,
                ) by {
                    assert(up@[y] == ancestor(s, ufw[k as int] as int, y));
                    assert(before[y] == shared_by(s, ufw, k as int, y));
                    lemma_shared_step(s, ufw, k as int, y);
                }
            }
            k += 1;
        }
        marks
    }

    /// The signatures of the unique famous witnesses of the round at place
    /// `i`, combined by exclusive-or.
    fn whitener_of(&self, i: usize) -> (out: [u8; 64])
        requires
            self.graph.wf(),
            i < self.rounds@.len(),
            round_ok(self.graph, self.rounds@[i as int], i as int),
            self.rounds@[i as int].unique_places@.len() > 0,
        ensures
            out@ == whitener(
                signatures(self.graph.events()),
                self.rounds@[i as int].unique_places@,
                self.rounds@[i as int].unique_places@.len() as int,
            ),
    {
        let round = &self.rounds[i];
        let ghost ufw = round.unique_places@;
        assert(unique_ok(self.graph, *round, 0));
        proof {
            lemma_graph_wf(self.graph, 0);
        }
        let mut out = self.graph.event_at(round.unique_places[0]).raw.signature.to_bytes();
        let mut k: usize = 1;
        while k < round.unique_places.len()
            invariant
                self.graph.wf(),
                self.graph.events().len() == self.graph.nodes().len(),
                i < self.rounds@.len(),
                *round == self.rounds@[i as int],
                ufw == round.unique_places@,
                round_ok(self.graph, *round, i as int),
                1 <= k <= ufw.len(),
                out@ == whitener(signatures(self.graph.events()), ufw, k as int),
            decreases ufw.len() - k,
        {
            assert(unique_ok(self.graph, *round, k as int));
            let sig = self.graph.event_at(round.unique_places[k]).raw.signature.to_bytes();
            out = xor(&out, &sig);
            k += 1;
        }
        out
    }

    /// The consensus time of the event at `x` in the round at place `i`:
    /// the median of the times at which the authors of the round's unique
    /// famous witnesses learned of it.
    fn consensus_time_of(&self, i: usize, x: usize) -> (time: u128)
        requires
            self.graph.wf(),
            i < self.rounds@.len(),
            round_ok(self.graph, self.rounds@[i as int], i as int),
            self.rounds@[i as int].unique_places@.len() > 0,
            x < self.graph.nodes().len(),
        ensures
            time == consensus_time(
                self.graph.nodes(),
                claimed_times(self.graph.events()),
                self.rounds@[i as int].unique_places@,
                x as int,
            ),
    {
        let ghost s = self.graph.nodes();
        let ghost events = self.graph.events();
        let round = &self.rounds[i];
        let ghost ufw = round.unique_places@;
        let down = self.graph.mark_descendants(x);
        let mut times: Vec<u128> = Vec::new();
        let mut k: usize = 0;
        proof {
            lemma_graph_wf(self.graph, x as int);
        }
        while k < round.unique_places.len()
            invariant
                self.graph.wf(),
                s == self.graph.nodes(),
                events == self.graph.events(),
                events.len() == s.len(),
                i < self.rounds@.len(),
                *round == self.rounds@[i as int],
                ufw == round.unique_places@,
                round_ok(self.graph, *round, i as int),
                x < s.len(),
                down@ == descendant_marks(s, x as int),
                k <= ufw.len(),
                times@.len() == k,
                forall|t: int|
                    0 <= t < k ==> times@[t] == learned_times(
                        s,
                        claimed_times(events),
                        ufw,
                        x as int,
                    )[t],
            decreases ufw.len() - k,
        {
            assert(unique_ok(self.graph, *round, k as int));
            let mut a: usize = round.unique_places[k];
            loop
                invariant_except_break
                    self.graph.wf(),
                    s == self.graph.nodes(),
                    a < s.len(),
                    x < s.len(),
                    down@ == descendant_marks(s, x as int),
                    learned_at(s, ufw[k as int] as int, x as int) == learned_at(
                        s,
                        a as int,
                        x as int,
                    ),
                ensures
                    a < s.len(),
                    learned_at(s, ufw[k as int] as int, x as int) == a,
                decreases a,
            {
                proof {
                    lemma_graph_wf(self.graph, a as int);
                }
                match self.graph.node_at(a).self_parent {
                    Some(p) => {
                        if down[p] {
                            a = p;
                        } else {
                            break ;
                        }
                    },
                    None => {
                        break ;
                    },
                }
            }
            times.push(self.graph.event_at(a).time());
            k += 1;
        }
        assert(times@ =~= learned_times(s, claimed_times(events), ufw, x as int));
        median_of(&times)
    }

    /// For each event that the round at place `i` newly receives, its
    /// position, consensus time and whitened signature.
    fn plan(&self, i: usize) -> (plan: Vec<(usize, u128, [u8; 64])>)
        requires
            self.graph.wf(),
            i < self.rounds@.len(),
            round_ok(self.graph, self.rounds@[i as int], i as int),
            self.rounds@[i as int].unique_places@.len() > 0,
        ensures
            planned(
                self.graph.nodes(),
                self.graph.events(),
                self.rounds@[i as int].unique_places@,
                plan@,
                self.graph.nodes().len() as int,
            ),
    {
        let ghost s = self.graph.nodes();
        let ghost events = self.graph.events();
        let ghost ufw = self.rounds@[i as int].unique_places@;
        let n = self.graph.len();
        let shared = self.shared_marks(i);
        let white = self.whitener_of(i);
        let mut plan: Vec<(usize, u128, [u8; 64])> = Vec::new();
        let mut x: usize = 0;
        proof {
            assert(unique_ok(self.graph, self.rounds@[i as int], 0));
            lemma_graph_wf(self.graph, 0);
        }
        while x < n
            invariant
                self.graph.wf(),
                s == self.graph.nodes(),
                events == self.graph.events(),
                events.len() == s.len(),
                n == s.len(),
                i < self.rounds@.len(),
                ufw == self.rounds@[i as int].unique_places@,
                ufw.len() > 0,
                round_ok(self.graph, self.rounds@[i as int], i as int),
                x <= n,
                shared@.len() == n,
                forall|y: int|
                    0 <= y < n ==> shared@[y] == shared_by(s, ufw, ufw.len() as int, y),
                white@ == whitener(signatures(events), ufw, ufw.len() as int),
                planned(s, events, ufw, plan@, x as int),
            decreases n - x,
        {
            if shared[x] && self.graph.event_at(x).round_received.is_none() {
                let time = self.consensus_time_of(i, x);
                let sig = self.graph.event_at(x).raw.signature.to_bytes();
                let mixed = xor(&white, &sig);
                plan.push((x, time, mixed));
            }
            x += 1;
        }
        plan
    }
}


/// Receiving events is deriving more of them.
pub proof fn lemma_delivered_kept(a: Graph, b: Graph, ufw: Seq<usize>, round: u64)
    requires
        delivered(a, b, ufw, round),
    ensures
        graph_kept(a, b),
{
    assert forall|i: int| 0 <= i < a.events().len() implies derived_kept(
        a.events()[i],
        #[trigger] b.events()[i],
    ) by {
        assert(delivered_at(a, b, ufw, round, i));
    }
}

impl Voter {
    /// Lets the round at place `i` receive the events that it newly
    /// receives: those that no round received yet and that are an
    /// ancestor of each of its unique famous witnesses. Each gets the number
    /// of the round, its consensus time and its whitened signature, and its
    /// position is added to `commit`.
    fn receive(&mut self, i: usize, commit: &mut Vec<usize>)
        requires
            old(self).wf(),
            i < old(self).rounds@.len(),
            old(self).rounds@[i as int].unique_places@.len() > 0,
        ensures
            final(self).wf(),
            final(self).rounds == old(self).rounds,
            delivered(
                old(self).graph,
                final(self).graph,
                old(self).rounds@[i as int].unique_places@,
                old(self).rounds@[i as int].round,
            ),
            final(commit)@ == old(commit)@ + newly_received(
                old(self).graph.nodes(),
                rounds_received(old(self).graph.events()),
                old(self).rounds@[i as int].unique_places@,
                old(self).graph.nodes().len() as int,
            ),
    {
        let ghost g0 = self.graph;
        let ghost s = g0.nodes();
        let ghost ufw = self.rounds@[i as int].unique_places@;
        let ghost got = rounds_received(g0.events());
        let ghost times = claimed_times(g0.events());
        let ghost sigs = signatures(g0.events());
        let round = self.rounds[i].round;
        proof {
            assert(round_ok(g0, self.rounds@[i as int], i as int));
            assert(unique_ok(g0, self.rounds@[i as int], 0));
            lemma_graph_wf(g0, 0);
        }
        let plan = self.plan(i);
        let n = self.graph.len();
        let ghost newly = newly_received(s, got, ufw, n as int);
        proof {
            lemma_newly_received(s, got, ufw, n as int);
        }
        let mut t: usize = 0;
        while t < plan.len()
            invariant
                t <= plan@.len(),
                plan@.len() == newly.len(),
                planned(s, g0.events(), ufw, plan@, n as int),
                newly == newly_received(s, got, ufw, n as int),
                got == rounds_received(g0.events()),
                times == claimed_times(g0.events()),
                sigs == signatures(g0.events()),
                ufw.len() > 0,
                n == s.len(),
                g0.events().len() == n,
                self.rounds == old(self).rounds,
                self.graph.wf(),
                self.graph.nodes() == s,
                self.graph.events().len() == n,
                forall|t2: int|
                    0 <= t2 < newly.len() ==> {
                        let x = #[trigger] newly[t2];
                        &&& x < n
                        &&& got[x as int] is None
                        &&& shared_by(s, ufw, ufw.len() as int, x as int)
                    },
                forall|t2: int, t3: int| 0 <= t2 < t3 < newly.len() ==> newly[t2] < newly[t3],
                forall|t2: int|
                    0 <= t2 < t ==> received_as(
                        s,
                        times,
                        sigs,
                        ufw,
                        round,
                        newly[t2] as int,
                        g0.events()[newly[t2] as int],
                        #[trigger] self.graph.events()[newly[t2] as int],
                    ),
                forall|x: int|
                    #![trigger self.graph.events()[x]]
                    0 <= x < n && (t < newly.len() ==> x >= newly[t as int])
                        && t < newly.len() ==> self.graph.events()[x] == g0.events()[x],
                forall|x: int|
                    #![trigger self.graph.events()[x]]
                    0 <= x < n && !(got[x] is None && shared_by(s, ufw, ufw.len() as int, x))
                        ==> self.graph.events()[x] == g0.events()[x],
                commit@ == old(commit)@ + newly.subrange(0, t as int),
            decreases plan@.len() - t,
        {
            let (x, time, mixed) = plan[t];
            let ghost g1 = self.graph;
            proof {
                assert(plan@[t as int].0 == newly[t as int]);
                assert(g1.events()[x as int] == g0.events()[x as int]);
            }
            self.graph.set_received(x, round, time, mixed);
            commit.push(x);
            proof {
                let g2 = self.graph;
                assert(commit@ =~= old(commit)@ + newly.subrange(0, t + 1));
                assert forall|t2: int| 0 <= t2 < t + 1 implies received_as(
                    s,
                    times,
                    sigs,
                    ufw,
                    round,
                    newly[t2] as int,
                    g0.events()[newly[t2] as int],
                    #[trigger] g2.events()[newly[t2] as int],
                ) by {
                    if t2 < t {
                        assert(newly[t2] < newly[t as int]);
                        assert(g2.events()[newly[t2] as int] == g1.events()[newly[t2] as int]);
                    }
                }
                assert forall|y: int|
                    #![trigger g2.events()[y]]
                    0 <= y < n && (t + 1 < newly.len() ==> y >= newly[t + 1]) && t + 1
                        < newly.len() implies g2.events()[y] == g0.events()[y] by {
                    assert(newly[t as int] < newly[t + 1]);
                    assert(g1.events()[y] == g0.events()[y]);
                }
                assert forall|y: int|
                    #![trigger g2.events()[y]]
                    0 <= y < n && !(got[y] is None && shared_by(s, ufw, ufw.len() as int, y))
                        implies g2.events()[y] == g0.events()[y] by {
                    assert(g1.events()[y] == g0.events()[y]);
                }
            }
            t += 1;
        }
        proof {
            let g2 = self.graph;
            assert(newly.subrange(0, t as int) =~= newly);
            assert forall|x: int| 0 <= x < n implies #[trigger] delivered_at(
                g0,
                g2,
                ufw,
                round,
                x,
            ) by {
                if got[x] is None && shared_by(s, ufw, ufw.len() as int, x) {
                    assert(newly.contains(x as usize));
                    let t2 = choose|t2: int| 0 <= t2 < newly.len() && newly[t2] == x as usize;
                    assert(received_as(
                        s,
                        times,
                        sigs,
                        ufw,
                        round,
                        newly[t2] as int,
                        g0.events()[newly[t2] as int],
                        g2.events()[newly[t2] as int],
                    ));
                }
            }
            lemma_delivered_kept(g0, g2, ufw, round);
            lemma_kept(g0, g2, self.rounds@);
        }
    }
}


/// The unique famous witnesses of each round.
pub open spec fn unique_lists(rounds: Seq<Round>) -> Seq<Seq<usize>> {
    Seq::new(rounds.len(), |k: int| rounds[k].unique_places@)
}

/// Whether the rounds `b` are the rounds `a` with more of them decided: a
/// round keeps its number, block, committee and witnesses, and a round that
/// was decided is the same.
pub open spec fn rounds_kept(a: Seq<Round>, b: Seq<Round>) -> bool {
    &&& b.len() == a.len()
    &&& forall|k: int| 0 <= k < a.len() ==> #[trigger] round_kept(a[k], b[k])
}

/// Whether the round `b` is the round `a`, or `a` decided.
pub open spec fn round_kept(a: Round, b: Round) -> bool {
    &&& b.round == a.round
    &&& b.block == a.block
    &&& b.authors == a.authors
    &&& b.freq_coin_rounds == a.freq_coin_rounds
    &&& b.witnesses == a.witnesses
    &&& b.places == a.places
    &&& a.decided ==> b == a
}

/// The number of decided rounds, where the decided rounds come first.
pub open spec fn decided_until(rounds: Seq<Round>) -> int {
    choose|m: int| is_decided_until(rounds, m)
}

/// Whether the first `m` rounds are decided and the others are not.
pub open spec fn is_decided_until(rounds: Seq<Round>, m: int) -> bool {
    &&& 0 <= m <= rounds.len()
    &&& forall|k: int| 0 <= k < rounds.len() ==> ((#[trigger] rounds[k]).decided <==> k < m)
}

/// Among the first `n` rounds, where the decided ones come first, there is
/// a number `m` such that exactly the rounds before `m` are decided.
proof fn lemma_decided_split(rounds: Seq<Round>, n: int) -> (m: int)
    requires
        decided_first(rounds),
        0 <= n <= rounds.len(),
    ensures
        0 <= m <= n,
        forall|k: int| 0 <= k < n ==> ((#[trigger] rounds[k]).decided <==> k < m),
    decreases n,
{
    if n == 0 {
        0
    } else {
        let m = lemma_decided_split(rounds, n - 1);
        if rounds[n - 1].decided {
            assert forall|k: int| 0 <= k < n implies (#[trigger] rounds[k]).decided by {
                if k < n - 1 {
                    assert(rounds[n - 1].decided);
                }
            }
            n
        } else {
            m
        }
    }
}

/// Where the decided rounds come first there is a number of decided
/// rounds, and `decided_until` is that number.
pub proof fn lemma_decided_exists(rounds: Seq<Round>)
    requires
        decided_first(rounds),
    ensures
        is_decided_until(rounds, decided_until(rounds)),
{
    let m = lemma_decided_split(rounds, rounds.len() as int);
    assert(is_decided_until(rounds, m));
}

/// There is one number of decided rounds.
pub proof fn lemma_decided_until(rounds: Seq<Round>, m: int)
    requires
        is_decided_until(rounds, m),
    ensures
        decided_until(rounds) == m,
{
    let c = decided_until(rounds);
    assert(is_decided_until(rounds, c));
    if c < m {
        assert(rounds[c].decided);
    } else if m < c {
        assert(rounds[m].decided);
    }
}

/// Whether every event that was not received in `a` is in `b` as the
/// rounds at places `m` up to `to` leave it: received by the first of them
/// whose unique famous witnesses it is an ancestor of, or not received.
pub open spec fn settled(a: Graph, b: Graph, ufws: Seq<Seq<usize>>, rounds: Seq<Round>, m: int, to: int) -> bool {
    forall|x: int|
        0 <= x < a.events().len() && a.events()[x].round_received is None ==> #[trigger] settled_at(
            a,
            b,
            ufws,
            rounds,
            m,
            to,
            x,
        )
}

/// Whether the event at `x` is in `b` as the rounds at places `m` up to
/// `to` leave it.
pub open spec fn settled_at(
    a: Graph,
    b: Graph,
    ufws: Seq<Seq<usize>>,
    rounds: Seq<Round>,
    m: int,
    to: int,
    x: int,
) -> bool {
    match first_receiver(a.nodes(), ufws, m, to, x) {
        Some(k) => received_with(
            a.nodes(),
            claimed_times(a.events()),
            signatures(a.events()),
            ufws[k],
            rounds[k].round,
            x,
            b.events()[x],
        ),
        None => b.events()[x].round_received is None,
    }
}

/// Whether `commit` lists, each once, the positions of the events that
/// were not received in `a` and are received in `b`.
pub open spec fn lists_received(a: Graph, b: Graph, commit: Seq<usize>) -> bool {
    &&& commit.no_duplicates()
    &&& forall|x: usize|
        commit.contains(x) <==> (x < a.events().len() && a.events()[x as int].round_received
            is None && b.events()[x as int].round_received is Some)
}


/// Casting votes is deriving more of the events.
pub proof fn lemma_elected_kept(a: Graph, b: Graph)
    requires
        elected(a, b),
    ensures
        graph_kept(a, b),
        claimed_times(b.events()) == claimed_times(a.events()),
        signatures(b.events()) == signatures(a.events()),
        rounds_received(b.events()) == rounds_received(a.events()),
{
    assert forall|i: int| 0 <= i < a.events().len() implies derived_kept(
        a.events()[i],
        #[trigger] b.events()[i],
    ) by {
        assert(only_election(a.events()[i], b.events()[i]));
    }
    assert forall|i: int| 0 <= i < a.events().len() implies b.events()[i].raw == a.events()[i].raw
        && b.events()[i].round_received == a.events()[i].round_received by {
        assert(only_election(a.events()[i], b.events()[i]));
    }
    assert(claimed_times(b.events()) =~= claimed_times(a.events()));
    assert(signatures(b.events()) =~= signatures(a.events()));
    assert(rounds_received(b.events()) =~= rounds_received(a.events()));
}

/// Deriving more of the events, twice, is deriving more of them; and it
/// keeps the claimed times and the signatures.
pub proof fn lemma_kept_twice(a: Graph, b: Graph, c: Graph)
    requires
        graph_kept(a, b),
        graph_kept(b, c),
    ensures
        graph_kept(a, c),
        claimed_times(c.events()) == claimed_times(a.events()),
        signatures(c.events()) == signatures(a.events()),
{
    assert forall|i: int| 0 <= i < a.events().len() implies derived_kept(
        a.events()[i],
        #[trigger] c.events()[i],
    ) by {
        assert(derived_kept(a.events()[i], b.events()[i]));
        assert(derived_kept(b.events()[i], c.events()[i]));
    }
    assert forall|i: int| 0 <= i < a.events().len() implies c.events()[i].raw
        == a.events()[i].raw by {
        assert(derived_kept(a.events()[i], c.events()[i]));
    }
    assert(claimed_times(c.events()) =~= claimed_times(a.events()));
    assert(signatures(c.events()) =~= signatures(a.events()));
}

/// What one more round leaves settled: where the events were settled by the
/// rounds at places `m` up to `i`, votes were cast, and the round at place
/// `i` received what it newly receives (or has no unique famous witness),
/// the events are settled by the rounds up to `i + 1`.
pub proof fn lemma_settled_step(
    g0: Graph,
    g1: Graph,
    g2: Graph,
    g3: Graph,
    r1: Seq<Round>,
    r3: Seq<Round>,
    m: int,
    i: int,
)
    requires
        0 <= m <= i < r1.len(),
        r3.len() == r1.len(),
        forall|k: int| 0 <= k < r1.len() && k != i ==> r3[k] == r1[k],
        r3[i].round == r1[i].round,
        graph_kept(g0, g1),
        elected(g1, g2),
        settled(g0, g1, unique_lists(r1), r1, m, i),
        if r3[i].unique_places@.len() > 0 {
            delivered(g2, g3, r3[i].unique_places@, r3[i].round)
        } else {
            g3 == g2
        },
    ensures
        settled(g0, g3, unique_lists(r3), r3, m, i + 1),
{
    let s = g0.nodes();
    let u1 = unique_lists(r1);
    let u3 = unique_lists(r3);
    let ufw = r3[i].unique_places@;
    lemma_elected_kept(g1, g2);
    lemma_kept_twice(g0, g1, g2);
    assert forall|x: int|
        0 <= x < g0.events().len() && g0.events()[x].round_received is None
            implies #[trigger] settled_at(
        g0,
        g3,
        u3,
        r3,
        m,
        i + 1,
        x,
    ) by {
        assert(settled_at(g0, g1, u1, r1, m, i, x));
        lemma_first_receiver(s, u1, u3, m, i, x);
        assert(only_election(g1.events()[x], g2.events()[x]));
        if ufw.len() > 0 {
            assert(delivered_at(g2, g3, ufw, r3[i].round, x));
        }
        assert(u3[i] == ufw);
        match first_receiver(s, u1, m, i, x) {
            Some(k) => {
                assert(u3[k] == u1[k]);
                assert(r3[k] == r1[k]);
            },
            None => {},
        }
    }
}

/// What one more round leaves of the list of newly received events.
pub proof fn lemma_commit_step(
    g0: Graph,
    g1: Graph,
    g2: Graph,
    g3: Graph,
    ufw: Seq<usize>,
    round: u64,
    commit: Seq<usize>,
    after: Seq<usize>,
)
    requires
        g0.events().len() <= usize::MAX,
        graph_kept(g0, g1),
        elected(g1, g2),
        lists_received(g0, g1, commit),
        if ufw.len() > 0 {
            &&& delivered(g2, g3, ufw, round)
            &&& after == commit + newly_received(
                g2.nodes(),
                rounds_received(g2.events()),
                ufw,
                g2.nodes().len() as int,
            )
        } else {
            g3 == g2 && after == commit
        },
        g2.nodes().len() == g2.events().len(),
    ensures
        lists_received(g0, g3, after),
{
    let n = g0.events().len() as int;
    lemma_elected_kept(g1, g2);
    assert forall|x: int| 0 <= x < n implies g2.events()[x].round_received
        == g1.events()[x].round_received by {
        assert(only_election(g1.events()[x], g2.events()[x]));
    }
    if ufw.len() > 0 {
        let got = rounds_received(g2.events());
        let newly = newly_received(g2.nodes(), got, ufw, n);
        lemma_newly_received(g2.nodes(), got, ufw, n);
        assert forall|x: int| 0 <= x < n
            implies #[trigger] delivered_at(g2, g3, ufw, round, x) by {}
        assert forall|a: int, b: int| 0 <= a < after.len() && 0 <= b < after.len() && a
            != b implies after[a] != after[b] by {
            if a < commit.len() && b < commit.len() {
            } else if a >= commit.len() && b >= commit.len() {
                let a2 = a - commit.len();
                let b2 = b - commit.len();
                if a2 < b2 {
                    assert(newly[a2] < newly[b2]);
                } else {
                    assert(newly[b2] < newly[a2]);
                }
            } else if a < commit.len() {
                assert(commit.contains(commit[a]));
                let y = newly[b - commit.len()];
                assert(got[y as int] is None);
            } else {
                assert(commit.contains(commit[b]));
                let y = newly[a - commit.len()];
                assert(got[y as int] is None);
            }
        }
        assert forall|x: usize|
            after.contains(x) <==> (x < n && g0.events()[x as int].round_received is None
                && g3.events()[x as int].round_received is Some) by {
            if after.contains(x) {
                let t = choose|t: int| 0 <= t < after.len() && after[t] == x;
                if t < commit.len() {
                    assert(commit.contains(x));
                    assert(delivered_at(g2, g3, ufw, round, x as int));
                } else {
                    let t2 = t - commit.len();
                    assert(newly[t2] == x);
                    assert(got[x as int] is None);
                    assert(delivered_at(g2, g3, ufw, round, x as int));
                    assert(derived_kept(g0.events()[x as int], g1.events()[x as int]));
                }
            }
            if x < n && g0.events()[x as int].round_received is None
                && g3.events()[x as int].round_received is Some {
                assert(delivered_at(g2, g3, ufw, round, x as int));
                if g1.events()[x as int].round_received is Some {
                    assert(commit.contains(x));
                    let t = choose|t: int| 0 <= t < commit.len() && commit[t] == x;
                    assert(after[t] == x);
                } else {
                    assert(got[x as int] is None);
                    assert(newly.contains(x));
                    let t = choose|t: int| 0 <= t < newly.len() && newly[t] == x;
                    assert(after[commit.len() + t] == x);
                }
            }
        }
    } else {
        assert forall|x: usize|
            after.contains(x) <==> (x < n && g0.events()[x as int].round_received is None
                && g3.events()[x as int].round_received is Some) by {
            assert(commit.contains(x) <==> (x < n && g0.events()[x as int].round_received
                is None && g1.events()[x as int].round_received is Some));
        }
    }
}


/// Whether the positions `at` are in the order of commits: no event comes
/// before one with a lesser key.
pub open spec fn in_commit_order(events: Seq<Event>, at: Seq<usize>) -> bool {
    forall|a: int, b: int|
        0 <= a < b < at.len() ==> key_leq(
            order_key(events[#[trigger] at[a] as int]),
            order_key(events[#[trigger] at[b] as int]),
        )
}

/// Whether `out` lists, each once and in the order of commits, the digests
/// of the events that were not received in `a` and are received in `b`.
pub open spec fn committed(a: Graph, b: Graph, out: Seq<crate::hash::Hash>) -> bool {
    let s = a.nodes();
    &&& out.no_duplicates()
    &&& forall|h: crate::hash::Hash|
        out.contains(h) <==> (holds(s, h) && a.events()[position(s, h)].round_received is None
            && b.events()[position(s, h)].round_received is Some)
    &&& forall|k: int, k2: int|
        0 <= k < k2 < out.len() ==> key_leq(
            order_key(b.events()[position(s, #[trigger] out[k])]),
            order_key(b.events()[position(s, #[trigger] out[k2])]),
        )
}

impl Voter {
    /// Puts the positions of received events in the order of commits: by
    /// round received, then by consensus time, then by whitened signature.
    fn sort_commit(&self, commit: &Vec<usize>) -> (out: Vec<usize>)
        requires
            self.graph.wf(),
            forall|t: int|
                0 <= t < commit@.len() ==> (#[trigger] commit@[t]) < self.graph.nodes().len()
                    && received(self.graph.events()[commit@[t] as int]),
        ensures
            out@.to_multiset() == commit@.to_multiset(),
            in_commit_order(self.graph.events(), out@),
            forall|t: int| 0 <= t < out@.len() ==> (#[trigger] out@[t]) < self.graph.nodes().len(),
    {
        let ghost events = self.graph.events();
        let n = self.graph.len();
        let mut out: Vec<usize> = Vec::new();
        let mut i: usize = 0;
        assert(commit@.subrange(0, 0) =~= Seq::<usize>::empty());
        while i < commit.len()
            invariant
                self.graph.wf(),
                events == self.graph.events(),
                n == self.graph.nodes().len(),
                i <= commit@.len(),
                forall|t: int|
                    0 <= t < commit@.len() ==> (#[trigger] commit@[t]) < n && received(
                        events[commit@[t] as int],
                    ),
                forall|t: int|
                    0 <= t < out@.len() ==> (#[trigger] out@[t]) < n && received(
                        events[out@[t] as int],
                    ),
                in_commit_order(events, out@),
                out@.to_multiset() == commit@.subrange(0, i as int).to_multiset(),
            decreases commit@.len() - i,
        {
            let x = commit[i];
            let mut at: usize = out.len();
            let mut go = true;
            while at > 0 && go
                invariant
                    self.graph.wf(),
                    events == self.graph.events(),
                    n == self.graph.nodes().len(),
                    x < n,
                    received(events[x as int]),
                    at <= out@.len(),
                    forall|t: int|
                        0 <= t < out@.len() ==> (#[trigger] out@[t]) < n && received(
                            events[out@[t] as int],
                        ),
                    forall|k: int|
                        at <= k < out@.len() ==> key_lt(
                            order_key(events[x as int]),
                            order_key(events[#[trigger] out@[k] as int]),
                        ),
                    !go ==> at > 0 && !key_lt(
                        order_key(events[x as int]),
                        order_key(events[out@[at - 1] as int]),
                    ),
                decreases
                        at + (if go {
                            1int
                        } else {
                            0int
                        }),
            {
                let prev = out[at - 1];
                let later = match self.graph.event_at(prev).commit_order(self.graph.event_at(x)) {
                    Some(Order::Greater) => true,
                    _ => false,
                };
                if later {
                    at -= 1;
                } else {
                    go = false;
                }
            }
            let ghost before = out@;
            out.insert(at, x);
            proof {
                vstd::seq_lib::to_multiset_insert(before, at as int, x);
                let next = commit@.subrange(0, i + 1);
                assert(next =~= commit@.subrange(0, i as int).push(x));
                vstd::seq_lib::to_multiset_build(commit@.subrange(0, i as int), x);
                assert forall|t: int| 0 <= t < out@.len() implies (#[trigger] out@[t]) < n
                    && received(events[out@[t] as int]) by {
                    if t < at {
                        assert(out@[t] == before[t]);
                    } else if t > at {
                        assert(out@[t] == before[t - 1]);
                    }
                }
                assert forall|a: int, b: int| 0 <= a < b < out@.len() implies key_leq(
                    order_key(events[#[trigger] out@[a] as int]),
                    order_key(events[#[trigger] out@[b] as int]),
                ) by {
                    let ka = order_key(events[out@[a] as int]);
                    let kb = order_key(events[out@[b] as int]);
                    let kx = order_key(events[x as int]);
                    if a != at && b != at {
                        let a0 = if a < at {
                            a
                        } else {
                            a - 1
                        };
                        let b0 = if b < at {
                            b
                        } else {
                            b - 1
                        };
                        assert(out@[a] == before[a0] && out@[b] == before[b0]);
                    } else if b == at {
                        let kp = order_key(events[before[at - 1] as int]);
                        assert(out@[a] == before[a]);
                        if a < at - 1 {
                            assert(key_leq(ka, kp));
                        }
                        lemma_key_order(ka, kp, kx);
                    } else {
                        assert(out@[b] == before[b - 1]);
                        lemma_key_order(kx, kb, kb);
                    }
                }
            }
            i += 1;
        }
        assert(commit@.subrange(0, i as int) =~= commit@);
        out
    }

    /// The number of decided rounds.
    fn count_decided(&self) -> (m: usize)
        requires
            decided_first(self.rounds@),
        ensures
            is_decided_until(self.rounds@, m as int),
    {
        let mut m: usize = 0;
        while m < self.rounds.len() && self.rounds[m].decided
            invariant
                m <= self.rounds@.len(),
                forall|k: int| 0 <= k < m ==> (#[trigger] self.rounds@[k]).decided,
            decreases self.rounds@.len() - m,
        {
            m += 1;
        }
        m
    }

    /// The digests of the events at the positions `at`.
    fn hashes_at(&self, at: &Vec<usize>) -> (out: Vec<crate::hash::Hash>)
        requires
            forall|t: int| 0 <= t < at@.len() ==> (#[trigger] at@[t]) < self.graph.nodes().len(),
        ensures
            out@.len() == at@.len(),
            forall|t: int|
                0 <= t < at@.len()
                    ==> (#[trigger] out@[t]) == self.graph.nodes()[at@[t] as int].hash,
    {
        let mut out: Vec<crate::hash::Hash> = Vec::new();
        let mut t: usize = 0;
        while t < at.len()
            invariant
                t <= at@.len(),
                out@.len() == t,
                forall|t2: int|
                    0 <= t2 < at@.len() ==> (#[trigger] at@[t2]) < self.graph.nodes().len(),
                forall|t2: int|
                    0 <= t2 < t
                        ==> (#[trigger] out@[t2]) == self.graph.nodes()[at@[t2] as int].hash,
            decreases at@.len() - t,
        {
            out.push(self.graph.node_at(at[t]).hash);
            t += 1;
        }
        out
    }
}

/// A list with the same entries as a list without duplicates has no
/// duplicates and holds the same positions.
pub proof fn lemma_same_entries(commit: Seq<usize>, sorted: Seq<usize>)
    requires
        commit.no_duplicates(),
        sorted.to_multiset() == commit.to_multiset(),
    ensures
        sorted.no_duplicates(),
        forall|x: usize| sorted.contains(x) <==> commit.contains(x),
{
    commit.lemma_multiset_has_no_duplicates();
    sorted.lemma_multiset_has_no_duplicates_conv();
    assert forall|x: usize| sorted.contains(x) <==> commit.contains(x) by {
        vstd::seq_lib::to_multiset_contains(sorted, x);
        vstd::seq_lib::to_multiset_contains(commit, x);
    }
}

/// A list of the newly received positions, in the order of commits, gives
/// the list of committed digests.
pub proof fn lemma_committed(a: Graph, b: Graph, sorted: Seq<usize>, out: Seq<crate::hash::Hash>)
    requires
        a.wf(),
        a.nodes().len() <= usize::MAX,
        b.nodes() == a.nodes(),
        b.events().len() == a.events().len(),
        lists_received(a, b, sorted),
        in_commit_order(b.events(), sorted),
        out.len() == sorted.len(),
        forall|t: int| 0 <= t < sorted.len()
            ==> (#[trigger] out[t]) == a.nodes()[sorted[t] as int].hash,
    ensures
        committed(a, b, out),
{
    let s = a.nodes();
    crate::graph::lemma_graph_shape(a);
    assert forall|t: int| 0 <= t < sorted.len() implies sorted[t] < s.len() && position(
        s,
        #[trigger] out[t],
    ) == sorted[t] as int by {
        assert(sorted.contains(sorted[t]));
        let p = sorted[t] as int;
        assert(s[p].hash == out[t]);
        let q = position(s, out[t]);
        assert(s[q].hash == s[p].hash);
    }
    assert forall|t: int, t2: int| 0 <= t < out.len() && 0 <= t2 < out.len() && t
        != t2 implies out[t] != out[t2] by {
        assert(sorted[t] != sorted[t2]);
        assert(position(s, out[t]) == sorted[t] as int);
        assert(position(s, out[t2]) == sorted[t2] as int);
    }
    assert forall|h: crate::hash::Hash|
        out.contains(h) <==> (holds(s, h) && a.events()[position(s, h)].round_received is None
            && b.events()[position(s, h)].round_received is Some) by {
        if out.contains(h) {
            let t = choose|t: int| 0 <= t < out.len() && out[t] == h;
            assert(sorted.contains(sorted[t]));
            assert(position(s, out[t]) == sorted[t] as int);
            assert(s[sorted[t] as int].hash == h);
        }
        if holds(s, h) && a.events()[position(s, h)].round_received is None
            && b.events()[position(s, h)].round_received is Some {
            let p = position(s, h);
            let pu = p as usize;
            assert(sorted.contains(pu));
            let t = choose|t: int| 0 <= t < sorted.len() && sorted[t] == pu;
            assert(out[t] == s[p].hash);
        }
    }
    assert forall|k: int, k2: int| 0 <= k < k2 < out.len() implies key_leq(
        order_key(b.events()[position(s, #[trigger] out[k])]),
        order_key(b.events()[position(s, #[trigger] out[k2])]),
    ) by {
        assert(position(s, out[k]) == sorted[k] as int);
        assert(position(s, out[k2]) == sorted[k2] as int);
    }
}


/// Whether every witness of the round `r` has its fame decided, and the
/// unique famous witnesses of the round are those that the fame of its
/// witnesses gives.
pub open spec fn round_closed(graph: Graph, r: Round) -> bool {
    &&& r.decided
    &&& all_decided(graph, r)
    &&& r.unique_places@ == unique_famous(
        graph.nodes(),
        fames(graph.events()),
        r.places@,
        r.places@.len() as int,
    )
}

/// The unique famous witnesses of a round depend on the fame of its
/// witnesses only.
pub proof fn lemma_unique_famous(
    s: Seq<Node>,
    a: Seq<Option<bool>>,
    b: Seq<Option<bool>>,
    places: Seq<usize>,
    n: int,
)
    requires
        n <= places.len(),
        forall|j: int| 0 <= j < places.len()
            ==> a[#[trigger] places[j] as int] == b[places[j] as int],
    ensures
        unique_famous(s, a, places, n) == unique_famous(s, b, places, n),
    decreases n,
{
    if n > 0 {
        lemma_unique_famous(s, a, b, places, n - 1);
        assert(a[places[n - 1] as int] == b[places[n - 1] as int]);
    }
}

/// A closed round stays closed while more is derived of the events.
pub proof fn lemma_round_closed(a: Graph, b: Graph, r: Round, k: int)
    requires
        a.wf(),
        graph_kept(a, b),
        round_ok(a, r, k),
        round_closed(a, r),
    ensures
        round_closed(b, r),
{
    crate::graph::lemma_graph_shape(a);
    assert forall|j: int| 0 <= j < r.places@.len()
        implies fames(a.events())[#[trigger] r.places@[j] as int]
        == fames(b.events())[r.places@[j] as int] && b.events()[r.places@[j] as int].famous
        is Some by {
        assert(witness_ok(a, r, j));
        let p = r.places@[j] as int;
        assert(derived_kept(a.events()[p], b.events()[p]));
    }
    lemma_unique_famous(
        a.nodes(),
        fames(a.events()),
        fames(b.events()),
        r.places@,
        r.places@.len() as int,
    );
}

/// Whether the event at `x` is no witness of the rounds at places `m` up to
/// `to`.
pub open spec fn outside(rounds: Seq<Round>, m: int, to: int, x: int) -> bool {
    forall|k: int|
        m <= k < to && k < rounds.len() ==> #[trigger] not_among(
            rounds[k],
            rounds[k].places@.len() as int,
            x,
        )
}

/// Whether the fame of the witnesses of the rounds at places `m` up to `to`
/// is what their elections give, and the fame of every other event is what
/// it was.
pub open spec fn fame_elected(a: Graph, b: Graph, rounds: Seq<Round>, m: int, to: int) -> bool {
    &&& forall|k: int, j: int|
        m <= k < to && k < rounds.len() && 0 <= j < rounds[k].places@.len()
            ==> #[trigger] fame_settled(a, b, rounds, k, j)
    &&& forall|x: int|
        0 <= x < a.events().len() && outside(rounds, m, to, x) ==> (#[trigger] b.events()[x]).famous
            == a.events()[x].famous
}

/// What the election of one more round leaves of the fame of the events.
pub proof fn lemma_fame_step(
    g0: Graph,
    g1: Graph,
    g2: Graph,
    g3: Graph,
    r0: Seq<Round>,
    r1: Seq<Round>,
    m: int,
    i: int,
)
    requires
        g0.wf(),
        0 <= m <= i < r0.len(),
        rounds_fit(g0, r0),
        rounds_kept(r0, r1),
        graph_kept(g0, g1),
        elected(g1, g2),
        g3.nodes() == g2.nodes(),
        g3.events().len() == g2.events().len(),
        forall|x: int| 0 <= x < g2.events().len() ==> (#[trigger] g3.events()[x]).famous
            == g2.events()[x].famous,
        fame_elected(g0, g1, r0, m, i),
        forall|j: int|
            0 <= j < r1[i].places@.len() ==> #[trigger] fame_settled(g1, g2, r1, i, j),
        forall|x: int|
            0 <= x < g1.events().len() && not_among(r1[i], r1[i].places@.len() as int, x)
                ==> g2.events()[x].famous == g1.events()[x].famous,
    ensures
        fame_elected(g0, g3, r0, m, i + 1),
{
    crate::graph::lemma_graph_shape(g0);
    assert(round_kept(r0[i], r1[i]));
    assert(committees(r1) =~= committees(r0)) by {
        assert forall|k: int| 0 <= k < r0.len() implies committees(r1)[k] == committees(r0)[k] by {
            assert(round_kept(r0[k], r1[k]));
        }
    }
    assert(coin_bits(g1.events()) =~= coin_bits(g0.events())) by {
        assert forall|v: int| 0 <= v < g0.events().len() implies coin_bits(g1.events())[v]
            == coin_bits(g0.events())[v] by {
            assert(derived_kept(g0.events()[v], g1.events()[v]));
        }
    }
    assert forall|k: int, j: int|
        m <= k < i + 1 && k < r0.len() && 0 <= j < r0[k].places@.len()
            implies #[trigger] fame_settled(g0, g3, r0, k, j) by {
        let w = r0[k].places@[j] as int;
        assert(round_ok(g0, r0[k], k));
        assert(witness_ok(g0, r0[k], j));
        if k < i {
            assert(fame_settled(g0, g1, r0, k, j));
            assert(not_among(r1[i], r1[i].places@.len() as int, w)) by {
                assert forall|t: int| 0 <= t < r1[i].places@.len()
                    implies #[trigger] r1[i].places@[t]
                    != w by {
                    assert(round_ok(g0, r0[i], i));
                    assert(witness_ok(g0, r0[i], t));
                }
            }
        } else {
            assert(fame_settled(g1, g2, r1, i, j));
            assert(outside(r0, m, i, w)) by {
                assert forall|k2: int| m <= k2 < i && k2 < r0.len() implies #[trigger] not_among(
                    r0[k2],
                    r0[k2].places@.len() as int,
                    w,
                ) by {
                    assert forall|t: int| 0 <= t < r0[k2].places@.len()
                        implies #[trigger] r0[k2].places@[t]
                        != w by {
                        assert(round_ok(g0, r0[k2], k2));
                        assert(witness_ok(g0, r0[k2], t));
                    }
                }
            }
        }
    }
    assert forall|x: int| 0 <= x < g0.events().len() && outside(r0, m, i + 1, x) implies (
    #[trigger] g3.events()[x]).famous == g0.events()[x].famous by {
        assert(not_among(r0[i], r0[i].places@.len() as int, x));
        assert(r1[i].places == r0[i].places);
        assert(not_among(r1[i], r1[i].places@.len() as int, x));
        assert(outside(r0, m, i, x)) by {
            assert forall|k2: int| m <= k2 < i && k2 < r0.len() implies #[trigger] not_among(
                r0[k2],
                r0[k2].places@.len() as int,
                x,
            ) by {}
        }
        assert(g1.events()[x].famous == g0.events()[x].famous);
        assert(g1.events().len() == g0.events().len());
        assert(g2.events()[x].famous == g1.events()[x].famous);
        assert(g2.events().len() == g1.events().len());
        assert(g3.events()[x].famous == g2.events()[x].famous);
    }
}

/// Whether the voter `post` is the voter `pre` after it decided what it
/// could, with `out` the digests that it committed.
///
/// The shape of the graph and what was derived before are kept, and a round
/// keeps its number, block, committee and witnesses. The rounds from the
/// first undecided one on were taken in order: the fame of their witnesses
/// is what the elections give, up to the first round that is left with an
/// undecided witness; the rounds before that one are closed. An event that
/// was not received is received by the first of the newly closed rounds
/// whose unique famous witnesses it is an ancestor of, with the consensus
/// time and whitened signature that the round gives it. `out` lists the
/// newly received events in the order of commits.
pub open spec fn processed(pre: Voter, post: Voter, out: Seq<crate::hash::Hash>) -> bool {
    let from = decided_until(pre.spec_rounds());
    let to = decided_until(post.spec_rounds());
    &&& post.spec_graph().nodes() == pre.spec_graph().nodes()
    &&& graph_kept(pre.spec_graph(), post.spec_graph())
    &&& rounds_kept(pre.spec_rounds(), post.spec_rounds())
    &&& from <= to
    &&& forall|k: int|
        from <= k < to ==> round_closed(post.spec_graph(), #[trigger] post.spec_rounds()[k])
    &&& settled(
        pre.spec_graph(),
        post.spec_graph(),
        unique_lists(post.spec_rounds()),
        post.spec_rounds(),
        from,
        to,
    )
    &&& committed(pre.spec_graph(), post.spec_graph(), out)
    &&& fame_elected(pre.spec_graph(), post.spec_graph(), pre.spec_rounds(), from, to + 1)
    &&& to < post.spec_rounds().len() ==> !all_decided(post.spec_graph(), post.spec_rounds()[to])
}

impl Voter {
    /// Decides what can be decided and puts what is final in order. The
    /// undecided rounds are taken in order. For each, the elections on the
    /// fame of its undecided witnesses are held; where that leaves a witness
    /// undecided, the round and those after it wait for more events.
    /// Otherwise the round is closed: it receives every event that no round
    /// received before and that is an ancestor of each of its unique famous
    /// witnesses, and such an event gets the number of the round, its
    /// consensus time and its whitened signature. The digests of the events
    /// received are returned in the order of commits: by round received,
    /// then by consensus time, then by whitened signature.
    pub fn process_rounds(&mut self) -> (out: Vec<crate::hash::Hash>)
        requires
            old(self).wf(),
        ensures
            final(self).wf(),
            processed(*old(self), *final(self), out@),
    {
        let ghost g0 = self.graph;
        let ghost r0 = self.rounds@;
        let ghost s = self.graph.nodes();
        let count = self.rounds.len();
        let n = self.graph.len();
        let m = self.count_decided();
        let mut commit: Vec<usize> = Vec::new();
        let mut i: usize = m;
        proof {
            lemma_decided_until(r0, m as int);
            crate::graph::lemma_graph_shape(g0);
            assert forall|x: int|
                0 <= x < g0.events().len() && g0.events()[x].round_received
                    is None implies #[trigger] settled_at(
                g0,
                g0,
                unique_lists(r0),
                r0,
                m as int,
                m as int,
                x,
            ) by {}
        }
        let mut waiting = false;
        while i < count && !waiting
            invariant
                m <= i <= count,
                rounds_fit(g0, r0),
                fame_elected(
                    g0,
                    self.graph,
                    r0,
                    m as int,
                    i + (if waiting {
                        1int
                    } else {
                        0int
                    }),
                ),
                waiting ==> i < count && !all_decided(self.graph, self.rounds@[i as int]),
                count == r0.len(),
                self.rounds@.len() == count,
                n == s.len(),
                g0.events().len() == n,
                g0.wf(),
                s == g0.nodes(),
                self.wf(),
                self.graph.nodes() == s,
                graph_kept(g0, self.graph),
                rounds_kept(r0, self.rounds@),
                is_decided_until(r0, m as int),
                is_decided_until(self.rounds@, i as int),
                forall|k: int| i <= k < count ==> self.rounds@[k] == r0[k],
                forall|k: int|
                    m <= k < i ==> round_closed(self.graph, #[trigger] self.rounds@[k]),
                settled(g0, self.graph, unique_lists(self.rounds@), self.rounds@, m as int, i as int),
                lists_received(g0, self.graph, commit@),
            decreases
                    count - i + (if waiting {
                        0int
                    } else {
                        1int
                    }),
        {
            let ghost g1 = self.graph;
            let ghost r1 = self.rounds@;
            let ghost c1 = commit@;
            let all = self.decide_fame(i);
            let ghost g2 = self.graph;
            proof {
                lemma_elected_kept(g1, g2);
                lemma_kept_twice(g0, g1, g2);
            }
            if all {
                self.close_round(i);
                let ghost r3 = self.rounds@;
                proof {
                    assert forall|x: int| 0 <= x < n implies #[trigger] placed(g2, r3, x) by {
                        assert(placed(g2, r1, x));
                    }
                    assert forall|k: int, k2: int|
                        0 <= k < k2 < r3.len() && (#[trigger] r3[k2]).decided implies (
                    #[trigger] r3[k]).decided by {
                        if k2 != i {
                            assert(r3[k2] == r1[k2]);
                        }
                        if k != i {
                            assert(r3[k] == r1[k]);
                        }
                    }
                }
                if self.rounds[i].unique_places.len() > 0 {
                    self.receive(i, &mut commit);
                    proof {
                        lemma_delivered_kept(g2, self.graph, r3[i as int].unique_places@, r3[i as int].round);
                    }
                }
                let ghost g3 = self.graph;
                proof {
                    crate::graph::lemma_graph_shape(g2);
                    if r3[i as int].unique_places@.len() == 0 {
                        assert forall|x: int| 0 <= x < n implies derived_kept(
                            g2.events()[x],
                            #[trigger] g3.events()[x],
                        ) by {}
                    }
                    lemma_kept_twice(g0, g2, g3);
                    assert forall|x: int| 0 <= x < g2.events().len() implies (
                    #[trigger] g3.events()[x]).famous == g2.events()[x].famous by {
                        if r3[i as int].unique_places@.len() > 0 {
                            assert(delivered_at(
                                g2,
                                g3,
                                r3[i as int].unique_places@,
                                r3[i as int].round,
                                x,
                            ));
                        }
                    }
                    lemma_fame_step(g0, g1, g2, g3, r0, r1, m as int, i as int);
                    lemma_settled_step(g0, g1, g2, g3, r1, r3, m as int, i as int);
                    lemma_commit_step(
                        g0,
                        g1,
                        g2,
                        g3,
                        r3[i as int].unique_places@,
                        r3[i as int].round,
                        c1,
                        commit@,
                    );
                    assert forall|k: int| 0 <= k < r0.len() implies #[trigger] round_kept(
                        r0[k],
                        r3[k],
                    ) by {
                        assert(round_kept(r0[k], r1[k]));
                        if k != i {
                            assert(r3[k] == r1[k]);
                        }
                    }
                    assert forall|k: int| 0 <= k < r3.len() implies ((#[trigger] r3[k]).decided
                        <==> k < i + 1) by {
                        if k != i {
                            assert(r3[k] == r1[k]);
                        }
                    }
                    assert forall|k: int| m <= k < i + 1 implies round_closed(
                        g3,
                        #[trigger] r3[k],
                    ) by {
                        if k < i {
                            assert(r3[k] == r1[k]);
                            assert(round_closed(g1, r1[k]));
                            assert(round_ok(g1, r1[k], k));
                            lemma_kept_twice(g1, g2, g3);
                            lemma_round_closed(g1, g3, r1[k], k);
                        } else {
                            assert(round_ok(g2, r3[k], k));
                            assert(round_closed(g2, r3[k])) by {
                                assert forall|j: int| 0 <= j < r3[k].places@.len()
                                    implies g2.events()[
                                #[trigger] r3[k].places@[j] as int].famous is Some by {
                                    assert(r1[i as int].places@[j] == r3[k].places@[j]);
                                }
                            }
                            lemma_round_closed(g2, g3, r3[k], k);
                        }
                    }
                }
                i += 1;
            } else {
                waiting = true;
                proof {
                    lemma_fame_step(g0, g1, g2, g2, r0, r1, m as int, i as int);
                    assert forall|x: int|
                        0 <= x < g0.events().len() && g0.events()[x].round_received
                            is None implies #[trigger] settled_at(
                        g0,
                        g2,
                        unique_lists(r1),
                        r1,
                        m as int,
                        i as int,
                        x,
                    ) by {
                        assert(settled_at(g0, g1, unique_lists(r1), r1, m as int, i as int, x));
                        assert(only_election(g1.events()[x], g2.events()[x]));
                    }
                    assert forall|x: usize|
                        commit@.contains(x) <==> (x < g0.events().len()
                            && g0.events()[x as int].round_received is None
                            && g2.events()[x as int].round_received is Some) by {
                        if x < n {
                            assert(only_election(g1.events()[x as int], g2.events()[x as int]));
                        }
                    }
                    assert forall|k: int| m <= k < i implies round_closed(
                        g2,
                        #[trigger] r1[k],
                    ) by {
                        assert(round_ok(g1, r1[k], k));
                        lemma_round_closed(g1, g2, r1[k], k);
                    }
                }
            }
        }
        proof {
            lemma_decided_until(self.rounds@, i as int);
            crate::graph::lemma_graph_shape(self.graph);
            if !waiting {
                assert forall|x: int|
                    0 <= x < g0.events().len() && outside(r0, m as int, i + 1, x) implies (
                #[trigger] self.graph.events()[x]).famous == g0.events()[x].famous by {
                    assert(outside(r0, m as int, i as int, x));
                }
            }
            assert forall|t: int| 0 <= t < commit@.len()
                implies (#[trigger] commit@[t]) < n && received(
                self.graph.events()[commit@[t] as int],
            ) by {
                let x = commit@[t];
                assert(commit@.contains(x));
                assert(settled_at(
                    g0,
                    self.graph,
                    unique_lists(self.rounds@),
                    self.rounds@,
                    m as int,
                    i as int,
                    x as int,
                ));
            }
        }
        let sorted = self.sort_commit(&commit);
        let out = self.hashes_at(&sorted);
        proof {
            lemma_same_entries(commit@, sorted@);
            lemma_committed(g0, self.graph, sorted@, out@);
        }
        out
    }
}


/// What a peer's state says of the authors of a committee: for each of the
/// first `n` authors whose sequence number it gives, the author and the
/// number.
pub open spec fn peer_state(authors: Seq<Author>, seqs: Seq<Option<u64>>, n: int) -> Seq<(Author, u64)>
    decreases n,
{
    if n <= 0 {
        Seq::empty()
    } else {
        match seqs[n - 1] {
            Some(seq) => peer_state(authors, seqs, n - 1).push((authors[n - 1], seq)),
            None => peer_state(authors, seqs, n - 1),
        }
    }
}

/// The place of the first round that was begun with the block `block`.
pub open spec fn round_of_block(rounds: Seq<Round>, block: u64, n: int) -> Option<int>
    decreases n,
{
    if n <= 0 {
        None
    } else {
        match round_of_block(rounds, block, n - 1) {
            Some(k) => Some(k),
            None => if rounds[n - 1].block == block {
                Some(n - 1)
            } else {
                None
            },
        }
    }
}

/// The lesser of two lengths.
pub open spec fn lesser(a: int, b: int) -> int {
    if a <= b {
        a
    } else {
        b
    }
}

impl Voter {
    /// What this node holds, for a peer to sync against: the block of the
    /// latest round and, for each author of that round's committee, the
    /// sequence number of the event of theirs that arrived last.
    pub fn sync_state(&self) -> (out: (u64, Vec<Option<u64>>))
        requires
            self.wf(),
            self.spec_rounds().len() > 0,
        ensures
            out.0 == self.spec_rounds().last().block,
            out.1@.len() == self.spec_rounds().last().authors@.len(),
            forall|k: int|
                0 <= k < out.1@.len() ==> out.1@[k] == crate::dag::last_seq(
                    self.spec_graph().nodes(),
                    #[trigger] self.spec_rounds().last().authors@[k],
                    self.spec_graph().nodes().len() as int,
                ),
    {
        let round = &self.rounds[self.rounds.len() - 1];
        (round.block, self.graph.sync_state(round.authors.as_slice()))
    }

    /// The events that a peer lacks, parents before children, for a peer
    /// whose state is `state`: a block and, for each author of the
    /// committee of the first round that was begun with that block, the
    /// sequence number up to which the peer holds the author's events. A
    /// block that no round was begun with is refused.
    pub fn sync(&self, state: (u64, Vec<Option<u64>>)) -> (r: Result<Vec<&RawEvent>, Error>)
        requires
            self.wf(),
        ensures
            r is Ok <==> round_of_block(
                self.spec_rounds(),
                state.0,
                self.spec_rounds().len() as int,
            ) is Some,
            r matches Err(e) ==> e == Error::InvalidSync,
            r matches Ok(out) ==> {
                let k = round_of_block(
                    self.spec_rounds(),
                    state.0,
                    self.spec_rounds().len() as int,
                ).unwrap();
                let authors = self.spec_rounds()[k].authors@;
                crate::graph::raw_refs_view(out@) == crate::graph::select_raw(
                    self.spec_graph().events(),
                    crate::dag::walk(
                        self.spec_graph().nodes(),
                        peer_state(
                            authors,
                            state.1@,
                            lesser(authors.len() as int, state.1@.len() as int),
                        ),
                        self.spec_graph().nodes().len() - 1,
                        crate::graph::fresh_walk(self.spec_graph().nodes().len()),
                    ).out,
                )
            },
    {
        let (block, seqs) = state;
        let mut k: usize = 0;
        while k < self.rounds.len() && self.rounds[k].block != block
            invariant
                k <= self.rounds@.len(),
                round_of_block(self.rounds@, block, k as int) is None,
            decreases self.rounds@.len() - k,
        {
            k += 1;
        }
        if k == self.rounds.len() {
            return Err(Error::InvalidSync);
        }
        proof {
            lemma_round_of_block(self.rounds@, block, k as int, self.rounds@.len() as int);
        }
        let authors = &self.rounds[k].authors;
        let n = if authors.len() <= seqs.len() {
            authors.len()
        } else {
            seqs.len()
        };
        let mut peer: Vec<(Author, u64)> = Vec::new();
        let mut j: usize = 0;
        while j < n
            invariant
                j <= n,
                n <= authors@.len(),
                n <= seqs@.len(),
                peer@ == peer_state(authors@, seqs@, j as int),
            decreases n - j,
        {
            match seqs[j] {
                Some(seq) => {
                    peer.push((authors[j], seq));
                },
                None => {},
            }
            j += 1;
        }
        Ok(self.graph.sync(peer.as_slice()))
    }
}

/// The first round with a block, found among the first rounds, is the first
/// among all.
pub proof fn lemma_round_of_block(rounds: Seq<Round>, block: u64, k: int, n: int)
    requires
        0 <= k < n <= rounds.len(),
        round_of_block(rounds, block, k) is None,
        rounds[k].block == block,
    ensures
        round_of_block(rounds, block, n) == Some(k),
    decreases n - k,
{
    if n > k + 1 {
        lemma_round_of_block(rounds, block, k, n - 1);
    }
}

/// An event of the voter is a witness exactly where its round is greater
/// than the round of its self-parent, or where it has no self-parent.
pub proof fn lemma_witness_rule(voter: Voter, i: int)
    requires
        voter.wf(),
        0 <= i < voter.spec_graph().nodes().len(),
    ensures
        voter.spec_graph().events()[i].round_created is Some,
        voter.spec_graph().events()[i].witness == Some(
            voter.spec_graph().events()[i].round_created.unwrap() > round_at(
                voter.spec_graph().events(),
                voter.spec_graph().nodes()[i].self_parent,
            ),
        ),
        voter.spec_graph().nodes()[i].self_parent is None ==> voter.spec_graph().events()[i].witness
            == Some(true),
{
    assert(placed(voter.spec_graph(), voter.spec_rounds(), i));
}

/// Once the fame of a witness is decided, no further processing changes
/// it.
pub proof fn lemma_fame_monotone(before: Graph, after: Graph, i: int)
    requires
        graph_kept(before, after),
        0 <= i < before.events().len(),
        before.events()[i].famous is Some,
    ensures
        after.events()[i].famous == before.events()[i].famous,
{
    assert(derived_kept(before.events()[i], after.events()[i]));
}

/// Once an event is received, no further processing changes the round in
/// which it was, its consensus time or its whitened signature.
pub proof fn lemma_order_stable(before: Graph, after: Graph, i: int)
    requires
        graph_kept(before, after),
        0 <= i < before.events().len(),
        before.events()[i].round_received is Some,
    ensures
        after.events()[i].round_received == before.events()[i].round_received,
        after.events()[i].time_received == before.events()[i].time_received,
        after.events()[i].whitened_signature == before.events()[i].whitened_signature,
{
    assert(derived_kept(before.events()[i], after.events()[i]));
}

/// Whether the events that are received in `b` and were not in `a` have
/// different keys, so that none can stand for another in the order of
/// commits.
pub open spec fn distinct_keys(a: Graph, b: Graph) -> bool {
    forall|x: int, y: int|
        #![trigger b.events()[x], b.events()[y]]
        0 <= x < a.events().len() && 0 <= y < a.events().len() && x != y
            && a.events()[x].round_received is None && a.events()[y].round_received is None
            && b.events()[x].round_received is Some && b.events()[y].round_received is Some
            ==> order_key(b.events()[x]) != order_key(b.events()[y])
}

/// The order of commits is settled by what was received: two lists of the
/// newly received events, both in the order of commits, are the same list.
pub proof fn lemma_commit_order_unique(
    a: Graph,
    b: Graph,
    one: Seq<crate::hash::Hash>,
    two: Seq<crate::hash::Hash>,
)
    requires
        a.wf(),
        committed(a, b, one),
        committed(a, b, two),
        distinct_keys(a, b),
    ensures
        one == two,
{
    let s = a.nodes();
    crate::graph::lemma_graph_shape(a);
    assert forall|h: crate::hash::Hash| one.contains(h) <==> two.contains(h) by {}
    assert(one.to_set() =~= two.to_set());
    one.unique_seq_to_set();
    two.unique_seq_to_set();
    assert forall|k: int| 0 <= k < one.len() implies one[k] == two[k] by {
        lemma_commit_prefix(a, b, one, two, k);
    }
    assert(one =~= two);
}

/// Whether the event with the digest `h` is received in `b` and was not in
/// `a`.
pub open spec fn newly_received_in(a: Graph, b: Graph, h: crate::hash::Hash) -> bool {
    holds(a.nodes(), h) && a.events()[position(a.nodes(), h)].round_received is None
        && b.events()[position(a.nodes(), h)].round_received is Some
}

/// The key by which the event with the digest `h` is ordered among the
/// commits, as `b` has it.
pub open spec fn commit_key(a: Graph, b: Graph, h: crate::hash::Hash) -> (u64, u128, Seq<u8>) {
    order_key(b.events()[position(a.nodes(), h)])
}

/// Whether two voters, of which one went from the graph `a` to `a2` and
/// the other from `b` to `b2`, newly received the same events and gave each
/// the same round received, consensus time and whitened signature.
pub open spec fn same_received(a: Graph, a2: Graph, b: Graph, b2: Graph) -> bool {
    forall|h: crate::hash::Hash|
        #![trigger newly_received_in(a, a2, h)]
        #![trigger newly_received_in(b, b2, h)]
        newly_received_in(a, a2, h) == newly_received_in(b, b2, h) && (newly_received_in(a, a2, h)
            ==> commit_key(a, a2, h) == commit_key(b, b2, h))
}

/// Whether the events that are received in `a2` and were not in `a` have
/// different keys.
pub open spec fn distinct_commit_keys(a: Graph, a2: Graph) -> bool {
    forall|x: crate::hash::Hash, y: crate::hash::Hash|
        #![trigger newly_received_in(a, a2, x), newly_received_in(a, a2, y)]
        newly_received_in(a, a2, x) && newly_received_in(a, a2, y) && x != y ==> commit_key(
            a,
            a2,
            x,
        ) != commit_key(a, a2, y)
}

/// Two lists of commits, each of one of two voters that newly received the
/// same events with the same keys, agree at place `k`.
proof fn lemma_same_commit_at(
    a: Graph,
    a2: Graph,
    b: Graph,
    b2: Graph,
    one: Seq<crate::hash::Hash>,
    two: Seq<crate::hash::Hash>,
    k: int,
)
    requires
        committed(a, a2, one),
        committed(b, b2, two),
        same_received(a, a2, b, b2),
        distinct_commit_keys(a, a2),
        0 <= k < one.len(),
        k < two.len(),
    ensures
        one[k] == two[k],
    decreases k,
{
    assert forall|i: int| 0 <= i < k implies one[i] == two[i] by {
        lemma_same_commit_at(a, a2, b, b2, one, two, i);
    }
    let x = one[k];
    let y = two[k];
    assert(one.contains(x));
    assert(two.contains(y));
    assert(newly_received_in(a, a2, x));
    assert(newly_received_in(b, b2, y));
    assert(newly_received_in(b, b2, x));
    assert(newly_received_in(a, a2, y));
    assert(two.contains(x));
    assert(one.contains(y));
    let j = choose|j: int| 0 <= j < two.len() && two[j] == x;
    let i = choose|i: int| 0 <= i < one.len() && one[i] == y;
    if j < k {
        assert(one[j] == two[j]);
    }
    if i < k {
        assert(two[i] == one[i]);
    }
    if x != y {
        assert(j > k && i > k);
        let kx = commit_key(a, a2, x);
        let ky = commit_key(a, a2, y);
        assert(kx == commit_key(b, b2, x));
        assert(ky == commit_key(b, b2, y));
        assert(key_leq(ky, kx)) by {
            assert(key_leq(
                order_key(b2.events()[position(b.nodes(), two[k])]),
                order_key(b2.events()[position(b.nodes(), two[j])]),
            ));
        }
        assert(key_leq(kx, ky)) by {
            assert(key_leq(
                order_key(a2.events()[position(a.nodes(), one[k])]),
                order_key(a2.events()[position(a.nodes(), one[i])]),
            ));
        }
        crate::bytes::lemma_lex_total(kx.2, ky.2);
        assert(kx.0 == ky.0 && kx.1 == ky.1 && kx.2 == ky.2);
        assert(kx == ky);
        assert(false);
    }
}

/// Two voters that newly received the same events, and gave each the same
/// round received, consensus time and whitened signature, commit them in
/// the same order, whatever else their graphs hold and in whatever order
/// the events reached them.
pub proof fn lemma_commit_agreement(
    a: Graph,
    a2: Graph,
    b: Graph,
    b2: Graph,
    one: Seq<crate::hash::Hash>,
    two: Seq<crate::hash::Hash>,
)
    requires
        committed(a, a2, one),
        committed(b, b2, two),
        same_received(a, a2, b, b2),
        distinct_commit_keys(a, a2),
    ensures
        one == two,
{
    assert forall|h: crate::hash::Hash| one.contains(h) <==> two.contains(h) by {
        assert(newly_received_in(a, a2, h) == newly_received_in(b, b2, h));
    }
    assert(one.to_set() =~= two.to_set());
    one.unique_seq_to_set();
    two.unique_seq_to_set();
    assert forall|k: int| 0 <= k < one.len() implies one[k] == two[k] by {
        lemma_same_commit_at(a, a2, b, b2, one, two, k);
    }
    assert(one =~= two);
}

/// Whether two voters give every event the same fame and the same round
/// received, and every event that is received the same consensus time and
/// whitened signature.
pub open spec fn same_findings(a: Graph, b: Graph) -> bool {
    &&& a.events().len() == b.events().len()
    &&& forall|x: int|
        #![trigger a.events()[x]]
        #![trigger b.events()[x]]
        0 <= x < a.events().len() ==> {
            &&& a.events()[x].famous == b.events()[x].famous
            &&& a.events()[x].round_received == b.events()[x].round_received
            &&& a.events()[x].round_received is Some ==> order_key(a.events()[x]) == order_key(
                b.events()[x],
            )
        }
}

/// Whether the rounds `a` and `b` have the same number, are both decided or
/// both not, and, where they are decided, have the same unique famous
/// witnesses.
pub open spec fn same_round(a: Round, b: Round) -> bool {
    &&& a.round == b.round
    &&& a.decided == b.decided
    &&& a.decided ==> a.unique_places@ == b.unique_places@
}

/// Whether two voters give every event the same round and hold the same
/// events for witnesses.
pub open spec fn same_placing(a: Graph, b: Graph) -> bool {
    forall|x: int|
        #![trigger a.events()[x]]
        #![trigger b.events()[x]]
        0 <= x < a.events().len() ==> a.events()[x].round_created == b.events()[x].round_created
            && a.events()[x].witness == b.events()[x].witness
}

/// Whether two voters hold the same events at the same places and have
/// found the same of them: the graphs have the same shape, the events the
/// same coins, claimed times and signatures, the same rounds, and the same
/// fame and round received, consensus time and whitened signature as far
/// as these are found; the rounds have the same committees and witnesses,
/// and the same are decided.
pub open spec fn alike(a: Voter, b: Voter) -> bool {
    &&& a.spec_graph().nodes() == b.spec_graph().nodes()
    &&& coin_bits(a.spec_graph().events()) == coin_bits(b.spec_graph().events())
    &&& claimed_times(a.spec_graph().events()) == claimed_times(b.spec_graph().events())
    &&& signatures(a.spec_graph().events()) == signatures(b.spec_graph().events())
    &&& same_findings(a.spec_graph(), b.spec_graph())
    &&& same_placing(a.spec_graph(), b.spec_graph())
    &&& committees(a.spec_rounds()) == committees(b.spec_rounds())
    &&& forall|k: int|
        0 <= k < a.spec_rounds().len() ==> same_round(
            #[trigger] a.spec_rounds()[k],
            b.spec_rounds()[k],
        )
}

/// What two voters that are alike share, round by round.
proof fn lemma_alike_rounds(a: Voter, b: Voter, k: int)
    requires
        alike(a, b),
        0 <= k < a.spec_rounds().len(),
    ensures
        a.spec_rounds().len() == b.spec_rounds().len(),
        a.spec_rounds()[k].places@ == b.spec_rounds()[k].places@,
        a.spec_rounds()[k].authors@ == b.spec_rounds()[k].authors@,
        same_round(a.spec_rounds()[k], b.spec_rounds()[k]),
{
    let ca = committees(a.spec_rounds());
    let cb = committees(b.spec_rounds());
    assert(ca.len() == cb.len());
    assert(ca[k].places == a.spec_rounds()[k].places@);
    assert(cb[k].places == b.spec_rounds()[k].places@);
    assert(ca[k].authors == a.spec_rounds()[k].authors@);
    assert(cb[k].authors == b.spec_rounds()[k].authors@);
}

/// Two voters that are alike have decided the same number of rounds.
proof fn lemma_alike_decided(a: Voter, b: Voter)
    requires
        a.wf(),
        b.wf(),
        alike(a, b),
    ensures
        decided_until(a.spec_rounds()) == decided_until(b.spec_rounds()),
{
    let ra = a.spec_rounds();
    let rb = b.spec_rounds();
    lemma_decided_exists(ra);
    lemma_decided_exists(rb);
    let m = decided_until(ra);
    assert(committees(ra).len() == committees(rb).len());
    assert forall|k: int| 0 <= k < rb.len() implies ((#[trigger] rb[k]).decided <==> k < m) by {
        assert(same_round(ra[k], rb[k]));
    }
    lemma_decided_until(rb, m);
}

/// The processing of two voters that are alike gives the witnesses of the
/// rounds that both looked at the same fame.
proof fn lemma_same_fame(
    pre1: Voter,
    one: Voter,
    pre2: Voter,
    two: Voter,
    from: int,
    to1: int,
    to2: int,
    k: int,
    j: int,
)
    requires
        pre1.wf(),
        pre2.wf(),
        alike(pre1, pre2),
        fame_elected(pre1.spec_graph(), one.spec_graph(), pre1.spec_rounds(), from, to1),
        fame_elected(pre2.spec_graph(), two.spec_graph(), pre2.spec_rounds(), from, to2),
        from <= k < to1,
        k < to2,
        0 <= k < pre1.spec_rounds().len(),
        0 <= j < pre1.spec_rounds()[k].places@.len(),
    ensures
        pre1.spec_rounds()[k].places@ == pre2.spec_rounds()[k].places@,
        one.spec_graph().events()[pre1.spec_rounds()[k].places@[j] as int].famous
            == two.spec_graph().events()[pre1.spec_rounds()[k].places@[j] as int].famous,
{
    lemma_alike_rounds(pre1, pre2, k);
    assert(fame_settled(pre1.spec_graph(), one.spec_graph(), pre1.spec_rounds(), k, j));
    assert(fame_settled(pre2.spec_graph(), two.spec_graph(), pre2.spec_rounds(), k, j));
    assert(round_ok(pre1.spec_graph(), pre1.spec_rounds()[k], k));
    assert(witness_ok(pre1.spec_graph(), pre1.spec_rounds()[k], j));
    crate::graph::lemma_graph_shape(pre1.spec_graph());
    crate::graph::lemma_graph_shape(pre2.spec_graph());
}

/// The processing of two voters that are alike decides the same number of
/// rounds, or that of the second decides more.
proof fn lemma_same_reach(
    pre1: Voter,
    one: Voter,
    out1: Seq<crate::hash::Hash>,
    pre2: Voter,
    two: Voter,
    out2: Seq<crate::hash::Hash>,
)
    requires
        pre1.wf(),
        pre2.wf(),
        one.wf(),
        two.wf(),
        alike(pre1, pre2),
        alike(pre2, pre1),
        processed(pre1, one, out1),
        processed(pre2, two, out2),
    ensures
        decided_until(one.spec_rounds()) <= decided_until(two.spec_rounds()),
{
    let from = decided_until(pre1.spec_rounds());
    let to1 = decided_until(one.spec_rounds());
    let to2 = decided_until(two.spec_rounds());
    lemma_alike_decided(pre1, pre2);
    lemma_decided_exists(pre1.spec_rounds());
    lemma_decided_exists(one.spec_rounds());
    lemma_decided_exists(two.spec_rounds());
    assert(committees(pre1.spec_rounds()).len() == committees(pre2.spec_rounds()).len());
    if to2 < to1 {
        let r1 = one.spec_rounds()[to2];
        let r2 = two.spec_rounds()[to2];
        assert(round_kept(pre1.spec_rounds()[to2], r1));
        assert(round_kept(pre2.spec_rounds()[to2], r2));
        assert(round_closed(one.spec_graph(), r1));
        assert(!all_decided(two.spec_graph(), r2));
        let j = choose|j: int|
            0 <= j < r2.places@.len() && !(two.spec_graph().events()[#[trigger] r2.places@[j] as int].famous
                is Some);
        lemma_alike_rounds(pre1, pre2, to2);
        lemma_same_fame(pre1, one, pre2, two, from, to1 + 1, to2 + 1, to2, j);
        assert(one.spec_graph().events()[r1.places@[j] as int].famous is Some);
    }
}

/// Being alike goes both ways.
pub proof fn lemma_alike_symmetric(a: Voter, b: Voter)
    requires
        alike(a, b),
    ensures
        alike(b, a),
{
    assert(committees(a.spec_rounds()).len() == committees(b.spec_rounds()).len());
    assert(coin_bits(a.spec_graph().events()).len() == coin_bits(b.spec_graph().events()).len());
    assert forall|k: int| 0 <= k < b.spec_rounds().len() implies same_round(
        #[trigger] b.spec_rounds()[k],
        a.spec_rounds()[k],
    ) by {
        assert(same_round(a.spec_rounds()[k], b.spec_rounds()[k]));
    }
}

/// Two voters that are alike take an event alike. Where two voters hold
/// the same events at the same places and have found the same of them, and
/// both take the event `event`, they are alike after it, provided that a
/// round that the event begins gets the same committee from both sources.
pub proof fn lemma_taking_agrees<S: RoundSource, T: RoundSource>(
    v0: Voter,
    s0: S,
    v1: Voter,
    s1: S,
    w0: Voter,
    t0: T,
    w1: Voter,
    t1: T,
    event: RawEvent,
)
    requires
        v0.wf(),
        w0.wf(),
        v1.wf(),
        w1.wf(),
        alike(v0, w0),
        took(v0, s0, event, v1, s1),
        took(w0, t0, event, w1, t1),
        begins_round(v0, v1) ==> v1.spec_rounds().last().authors@
            == w1.spec_rounds().last().authors@,
    ensures
        alike(v1, w1),
{
    let d = crate::crypto::digest(crate::event::preimage(event.event@));
    let g0 = v0.spec_graph();
    let k0 = w0.spec_graph();
    crate::graph::lemma_graph_shape(g0);
    crate::graph::lemma_graph_shape(k0);
    assert(coin_bits(g0.events()).len() == coin_bits(k0.events()).len());
    assert(committees(v0.spec_rounds()).len() == committees(w0.spec_rounds()).len());
    if !crate::graph::knows(g0.nodes(), d) {
        let g1 = v1.spec_graph();
        let k1 = w1.spec_graph();
        let n = g0.nodes().len() as int;
        let s = g1.nodes();
        let t = k1.nodes();
        crate::graph::lemma_graph_wf(g1, n);
        crate::graph::lemma_graph_wf(k1, n);
        assert forall|i: int| 0 <= i < n implies s[i] == t[i] by {
            assert(s.subrange(0, n)[i] == g0.nodes()[i]);
            assert(t.subrange(0, n)[i] == k0.nodes()[i]);
        }
        crate::graph::lemma_node_settled(s, t, g1.events()[n], k1.events()[n], n);
        assert(s =~= t);
        let e1 = g1.events();
        let e2 = k1.events();
        assert forall|x: int| 0 <= x < n implies {
            &&& e1[x].raw == g0.events()[x].raw
            &&& e2[x].raw == k0.events()[x].raw
            &&& e1[x].round_created == e2[x].round_created
            &&& e1[x].witness == e2[x].witness
            &&& e1[x].famous == e2[x].famous
            &&& e1[x].round_received == e2[x].round_received
            &&& e1[x].round_received is Some ==> order_key(e1[x]) == order_key(e2[x])
        } by {
            assert(same_but_children(e1[x], g0.events()[x]));
            assert(same_but_children(e2[x], k0.events()[x]));
        }
        assert(coin_bits(e1) =~= coin_bits(e2)) by {
            assert forall|x: int| 0 <= x < n + 1 implies coin_bits(e1)[x] == coin_bits(e2)[x] by {
                if x < n {
                    assert(coin_bits(g0.events())[x] == coin_bits(k0.events())[x]);
                }
            }
        }
        assert(claimed_times(e1) =~= claimed_times(e2)) by {
            assert forall|x: int| 0 <= x < n + 1 implies claimed_times(e1)[x] == claimed_times(
                e2,
            )[x] by {
                if x < n {
                    assert(claimed_times(g0.events())[x] == claimed_times(k0.events())[x]);
                }
            }
        }
        assert(signatures(e1) =~= signatures(e2)) by {
            assert forall|x: int| 0 <= x < n + 1 implies signatures(e1)[x] == signatures(e2)[x] by {
                if x < n {
                    assert(signatures(g0.events())[x] == signatures(k0.events())[x]);
                }
            }
        }
        let r0 = v0.spec_rounds();
        let q0 = w0.spec_rounds();
        let pr = parent_round(e1, s[n]);
        assert(parent_round(e2, t[n]) == pr) by {
            assert(crate::dag::parent_before(s[n].self_parent, n));
            assert(crate::dag::parent_before(s[n].other_parent, n));
        }
        assert(advances(s, n, r0, pr) == advances(t, n, q0, pr)) by {
            if 1 <= pr <= r0.len() {
                lemma_alike_rounds(v0, w0, pr - 1);
            }
        }
        let round = round_for(s, e1, n, r0);
        assert(round_for(t, e2, n, q0) == round);
        assert(witness_at(s, e1, n) == witness_at(t, e2, n));
        assert(same_findings(g1, k1));
        assert(same_placing(g1, k1));
        let r1 = v1.spec_rounds();
        let q1 = w1.spec_rounds();
        if witness_at(s, e1, n) {
            let h1 = s[n].hash;
            assert(witness_recorded(r0, r1, round as u64, h1, n as usize));
            assert(witness_recorded(q0, q1, round as u64, t[n].hash, n as usize));
            if round <= r0.len() {
                assert forall|k: int| 0 <= k < r1.len() implies same_round(#[trigger] r1[k], q1[k])
                    && r1[k].places@ == q1[k].places@ && r1[k].authors@ == q1[k].authors@ by {
                    lemma_alike_rounds(v0, w0, k);
                    if k == round - 1 {
                        assert(gained_witness(r0[k], r1[k], h1, n as usize));
                        assert(gained_witness(q0[k], q1[k], t[n].hash, n as usize));
                    }
                }
            } else {
                assert forall|k: int| 0 <= k < r1.len() implies same_round(#[trigger] r1[k], q1[k])
                    && r1[k].places@ == q1[k].places@ && r1[k].authors@ == q1[k].authors@ by {
                    if k < r0.len() {
                        lemma_alike_rounds(v0, w0, k);
                        assert(r1.subrange(0, r0.len() as int)[k] == r1[k]);
                        assert(q1.subrange(0, q0.len() as int)[k] == q1[k]);
                    }
                }
            }
        } else {
            assert forall|k: int| 0 <= k < r1.len() implies same_round(#[trigger] r1[k], q1[k])
                && r1[k].places@ == q1[k].places@ && r1[k].authors@ == q1[k].authors@ by {
                lemma_alike_rounds(v0, w0, k);
            }
        }
        assert(committees(r1) =~= committees(q1));
    }
}

/// Two voters that are alike process alike. Where two voters hold the same
/// events at the same places and have found the same of them, their
/// processing decides the same rounds, gives every event the same fame,
/// round received, consensus time and whitened signature, and commits the
/// same events in the same order; and the voters are alike after it. A
/// voter is alike itself, so the processing of one voter is settled by the
/// voter.
pub proof fn lemma_processing_agrees(
    pre1: Voter,
    one: Voter,
    out1: Seq<crate::hash::Hash>,
    pre2: Voter,
    two: Voter,
    out2: Seq<crate::hash::Hash>,
)
    requires
        pre1.wf(),
        pre2.wf(),
        one.wf(),
        two.wf(),
        alike(pre1, pre2),
        processed(pre1, one, out1),
        processed(pre2, two, out2),
        distinct_commit_keys(pre1.spec_graph(), one.spec_graph()),
    ensures
        out1 == out2,
        alike(one, two),
{
    let g1 = pre1.spec_graph();
    let g2 = pre2.spec_graph();
    let h1 = one.spec_graph();
    let h2 = two.spec_graph();
    let p1 = pre1.spec_rounds();
    let p2 = pre2.spec_rounds();
    let r1 = one.spec_rounds();
    let r2 = two.spec_rounds();
    let s = g1.nodes();
    let from = decided_until(p1);
    lemma_alike_symmetric(pre1, pre2);
    lemma_alike_decided(pre1, pre2);
    lemma_same_reach(pre1, one, out1, pre2, two, out2);
    lemma_same_reach(pre2, two, out2, pre1, one, out1);
    let to = decided_until(r1);
    lemma_decided_exists(p1);
    lemma_decided_exists(r1);
    lemma_decided_exists(r2);
    crate::graph::lemma_graph_shape(g1);
    crate::graph::lemma_graph_shape(g2);
    crate::graph::lemma_graph_shape(h1);
    crate::graph::lemma_graph_shape(h2);
    assert(committees(p1).len() == committees(p2).len());
    let n = g1.events().len() as int;
    assert(coin_bits(g1.events()).len() == coin_bits(g2.events()).len());
    assert forall|x: int| 0 <= x < n implies h1.events()[x].famous == h2.events()[x].famous by {
        lemma_fame_everywhere(pre1, one, pre2, two, from, to + 1, x);
    }
    let u1 = unique_lists(r1);
    let u2 = unique_lists(r2);
    assert forall|k: int| 0 <= k < p1.len() implies same_round(#[trigger] r1[k], r2[k])
        && r1[k].places@ == r2[k].places@ && r1[k].authors@ == r2[k].authors@ by {
        lemma_alike_rounds(pre1, pre2, k);
        assert(round_kept(p1[k], r1[k]));
        assert(round_kept(p2[k], r2[k]));
        if from <= k < to {
            assert(round_closed(h1, r1[k]));
            assert(round_closed(h2, r2[k]));
            let places = p1[k].places@;
            assert forall|j: int| 0 <= j < places.len() implies fames(h1.events())[#[trigger] places[j]
                as int] == fames(h2.events())[places[j] as int] by {
                assert(round_ok(g1, p1[k], k));
                assert(witness_ok(g1, p1[k], j));
            }
            lemma_unique_famous(s, fames(h1.events()), fames(h2.events()), places, places.len() as int);
        }
    }
    assert forall|k: int| from <= k < to implies u1[k] == u2[k] by {
        assert(same_round(r1[k], r2[k]));
    }
    assert forall|x: int| 0 <= x < n implies {
        &&& h1.events()[x].round_received == h2.events()[x].round_received
        &&& h1.events()[x].round_received is Some ==> order_key(h1.events()[x]) == order_key(
            h2.events()[x],
        )
        &&& h1.events()[x].raw == g1.events()[x].raw
        &&& h2.events()[x].raw == g2.events()[x].raw
        &&& h1.events()[x].round_created == h2.events()[x].round_created
        &&& h1.events()[x].witness == h2.events()[x].witness
    } by {
        assert(derived_kept(g1.events()[x], h1.events()[x]));
        assert(derived_kept(g2.events()[x], h2.events()[x]));
        assert(placed(g1, p1, x));
        assert(placed(g2, p2, x));
        if g1.events()[x].round_received is None {
            assert(settled_at(g1, h1, u1, r1, from, to, x));
            assert(settled_at(g2, h2, u2, r2, from, to, x));
            lemma_first_receiver(s, u1, u2, from, to, x);
            if let Some(k) = first_receiver(s, u1, from, to, x) {
                assert(same_round(r1[k], r2[k]));
            }
        }
    }
    assert(same_findings(h1, h2));
    assert(same_placing(h1, h2));
    assert(coin_bits(h1.events()) =~= coin_bits(h2.events())) by {
        assert forall|x: int| 0 <= x < n implies coin_bits(h1.events())[x] == coin_bits(
            h2.events(),
        )[x] by {
            assert(coin_bits(g1.events())[x] == coin_bits(g2.events())[x]);
        }
    }
    assert(claimed_times(h1.events()) =~= claimed_times(h2.events())) by {
        assert forall|x: int| 0 <= x < n implies claimed_times(h1.events())[x] == claimed_times(
            h2.events(),
        )[x] by {
            assert(claimed_times(g1.events())[x] == claimed_times(g2.events())[x]);
        }
    }
    assert(signatures(h1.events()) =~= signatures(h2.events())) by {
        assert forall|x: int| 0 <= x < n implies signatures(h1.events())[x] == signatures(
            h2.events(),
        )[x] by {
            assert(signatures(g1.events())[x] == signatures(g2.events())[x]);
        }
    }
    assert(committees(r1) =~= committees(r2));
    assert(alike(one, two));
    assert forall|h: crate::hash::Hash|
        #![trigger newly_received_in(g1, h1, h)]
        #![trigger newly_received_in(g2, h2, h)]
        newly_received_in(g1, h1, h) == newly_received_in(g2, h2, h) && (newly_received_in(g1, h1, h)
            ==> commit_key(g1, h1, h) == commit_key(g2, h2, h)) by {
        if holds(s, h) {
            let x = position(s, h);
            assert(h1.events()[x].round_received == h2.events()[x].round_received);
            assert(g1.events()[x].round_received == g2.events()[x].round_received);
        }
    }
    lemma_commit_agreement(g1, h1, g2, h2, out1, out2);
}

/// The processing of two voters that are alike gives every event the same
/// fame.
proof fn lemma_fame_everywhere(
    pre1: Voter,
    one: Voter,
    pre2: Voter,
    two: Voter,
    from: int,
    to: int,
    x: int,
)
    requires
        pre1.wf(),
        pre2.wf(),
        alike(pre1, pre2),
        fame_elected(pre1.spec_graph(), one.spec_graph(), pre1.spec_rounds(), from, to),
        fame_elected(pre2.spec_graph(), two.spec_graph(), pre2.spec_rounds(), from, to),
        0 <= from,
        0 <= x < pre1.spec_graph().events().len(),
    ensures
        one.spec_graph().events()[x].famous == two.spec_graph().events()[x].famous,
{
    let p1 = pre1.spec_rounds();
    let p2 = pre2.spec_rounds();
    assert(committees(p1).len() == committees(p2).len());
    assert(coin_bits(pre1.spec_graph().events()).len() == coin_bits(
        pre2.spec_graph().events(),
    ).len());
    if !outside(p1, from, to, x) {
        let k = choose|k: int|
            from <= k < to && k < p1.len() && !#[trigger] not_among(
                p1[k],
                p1[k].places@.len() as int,
                x,
            );
        let j = choose|j: int| 0 <= j < p1[k].places@.len() && !(#[trigger] p1[k].places@[j] != x);
        lemma_same_fame(pre1, one, pre2, two, from, to, to, k, j);
    } else {
        assert forall|k: int| from <= k < to && k < p2.len() implies #[trigger] not_among(
            p2[k],
            p2[k].places@.len() as int,
            x,
        ) by {
            lemma_alike_rounds(pre1, pre2, k);
            assert(not_among(p1[k], p1[k].places@.len() as int, x));
            assert forall|j: int| 0 <= j < p2[k].places@.len() implies #[trigger] p2[k].places@[j]
                != x by {
                assert(p1[k].places@[j] != x);
            }
        }
        assert(outside(p2, from, to, x));
    }
}

/// What a voter is fed: an event to take, or the call to process what it
/// holds.
pub enum Feed {
    /// The voter takes the event.
    Take(RawEvent),
    /// The voter decides what it can and commits.
    Process,
}

/// Whether one feeding makes of the voter `v0` and the source `s0` the
/// voter `v1` and the source `s1`, and of the commits `before` the commits
/// `out`. A round that an event begins gets its committee from
/// `committees`, by its place; the events that a processing newly receives
/// have different keys.
pub open spec fn fed_once<S: RoundSource>(
    v0: Voter,
    s0: S,
    feed: Feed,
    committees: Seq<Seq<Author>>,
    v1: Voter,
    s1: S,
    before: Seq<crate::hash::Hash>,
    out: Seq<crate::hash::Hash>,
) -> bool {
    &&& v1.wf()
    &&& match feed {
        Feed::Take(event) => {
            &&& took(v0, s0, event, v1, s1)
            &&& begins_round(v0, v1) ==> v1.spec_rounds().last().authors@
                == committees[v1.spec_rounds().len() - 1]
            &&& out == before
        },
        Feed::Process => {
            &&& s1 == s0
            &&& before.len() <= out.len()
            &&& out.subrange(0, before.len() as int) == before
            &&& processed(v0, v1, out.subrange(before.len() as int, out.len() as int))
            &&& distinct_commit_keys(v0.spec_graph(), v1.spec_graph())
        },
    }
}

/// Whether the first `n` feedings of `feed`, one after the other, make of
/// the voter `v0` and the source `s0` the voter `v1` and the source `s1`,
/// and commit the events `out`, in this order.
pub open spec fn fed<S: RoundSource>(
    v0: Voter,
    s0: S,
    feed: Seq<Feed>,
    committees: Seq<Seq<Author>>,
    n: int,
    v1: Voter,
    s1: S,
    out: Seq<crate::hash::Hash>,
) -> bool
    decreases n,
{
    if n <= 0 {
        v1 == v0 && s1 == s0 && out == Seq::<crate::hash::Hash>::empty()
    } else {
        exists|vm: Voter, sm: S, before: Seq<crate::hash::Hash>|
            fed(v0, s0, feed, committees, n - 1, vm, sm, before) && #[trigger] fed_once(
                vm,
                sm,
                feed[n - 1],
                committees,
                v1,
                s1,
                before,
                out,
            )
    }
}

/// Two voters that are alike and are fed alike commit alike. Where two
/// voters hold the same events at the same places and have found the same
/// of them, and both are fed the same events in the same order and process
/// at the same points, with the same committee for each round that begins,
/// they commit the same events in the same order, and are alike after it.
/// Two voters that know no event are alike.
pub proof fn lemma_fed_alike<S: RoundSource, T: RoundSource>(
    v0: Voter,
    s0: S,
    w0: Voter,
    t0: T,
    feed: Seq<Feed>,
    committees: Seq<Seq<Author>>,
    n: int,
    v1: Voter,
    s1: S,
    out1: Seq<crate::hash::Hash>,
    w1: Voter,
    t1: T,
    out2: Seq<crate::hash::Hash>,
)
    requires
        v0.wf(),
        w0.wf(),
        alike(v0, w0),
        fed(v0, s0, feed, committees, n, v1, s1, out1),
        fed(w0, t0, feed, committees, n, w1, t1, out2),
    ensures
        v1.wf(),
        w1.wf(),
        alike(v1, w1),
        out1 == out2,
    decreases n,
{
    if n > 0 {
        let (vm, sm, b1) = choose|vm: Voter, sm: S, before: Seq<crate::hash::Hash>|
            fed(v0, s0, feed, committees, n - 1, vm, sm, before) && #[trigger] fed_once(
                vm,
                sm,
                feed[n - 1],
                committees,
                v1,
                s1,
                before,
                out1,
            );
        let (wm, tm, b2) = choose|wm: Voter, tm: T, before: Seq<crate::hash::Hash>|
            fed(w0, t0, feed, committees, n - 1, wm, tm, before) && #[trigger] fed_once(
                wm,
                tm,
                feed[n - 1],
                committees,
                w1,
                t1,
                before,
                out2,
            );
        lemma_fed_alike(v0, s0, w0, t0, feed, committees, n - 1, vm, sm, b1, wm, tm, b2);
        match feed[n - 1] {
            Feed::Take(event) => {
                if begins_round(vm, v1) {
                    lemma_begins_alike(vm, sm, v1, s1, wm, tm, w1, t1, event);
                }
                lemma_taking_agrees(vm, sm, v1, s1, wm, tm, w1, t1, event);
            },
            Feed::Process => {
                let p1 = out1.subrange(b1.len() as int, out1.len() as int);
                let p2 = out2.subrange(b2.len() as int, out2.len() as int);
                lemma_processing_agrees(vm, v1, p1, wm, w1, p2);
                assert(out1 =~= b1 + p1);
                assert(out2 =~= b2 + p2);
            },
        }
    }
}

/// Where one of two voters that are alike begins a round with an event, the
/// other begins it too.
proof fn lemma_begins_alike<S: RoundSource, T: RoundSource>(
    v0: Voter,
    s0: S,
    v1: Voter,
    s1: S,
    w0: Voter,
    t0: T,
    w1: Voter,
    t1: T,
    event: RawEvent,
)
    requires
        v0.wf(),
        w0.wf(),
        v1.wf(),
        w1.wf(),
        alike(v0, w0),
        took(v0, s0, event, v1, s1),
        took(w0, t0, event, w1, t1),
        begins_round(v0, v1),
    ensures
        begins_round(w0, w1),
        v1.spec_rounds().len() == w1.spec_rounds().len(),
{
    let d = crate::crypto::digest(crate::event::preimage(event.event@));
    let g0 = v0.spec_graph();
    let k0 = w0.spec_graph();
    crate::graph::lemma_graph_shape(g0);
    crate::graph::lemma_graph_shape(k0);
    assert(coin_bits(g0.events()).len() == coin_bits(k0.events()).len());
    assert(committees(v0.spec_rounds()).len() == committees(w0.spec_rounds()).len());
    let g1 = v1.spec_graph();
    let k1 = w1.spec_graph();
    let n = g0.nodes().len() as int;
    let s = g1.nodes();
    let t = k1.nodes();
    crate::graph::lemma_graph_wf(g1, n);
    crate::graph::lemma_graph_wf(k1, n);
    assert forall|i: int| 0 <= i < n implies s[i] == t[i] by {
        assert(s.subrange(0, n)[i] == g0.nodes()[i]);
        assert(t.subrange(0, n)[i] == k0.nodes()[i]);
    }
    crate::graph::lemma_node_settled(s, t, g1.events()[n], k1.events()[n], n);
    assert(s =~= t);
    let e1 = g1.events();
    let e2 = k1.events();
    assert forall|x: int| 0 <= x < n implies e1[x].round_created == e2[x].round_created by {
        assert(same_but_children(e1[x], g0.events()[x]));
        assert(same_but_children(e2[x], k0.events()[x]));
    }
    let r0 = v0.spec_rounds();
    let q0 = w0.spec_rounds();
    let pr = parent_round(e1, s[n]);
    assert(parent_round(e2, t[n]) == pr) by {
        assert(crate::dag::parent_before(s[n].self_parent, n));
        assert(crate::dag::parent_before(s[n].other_parent, n));
    }
    assert(advances(s, n, r0, pr) == advances(t, n, q0, pr)) by {
        if 1 <= pr <= r0.len() {
            lemma_alike_rounds(v0, w0, pr - 1);
        }
    }
    assert(witness_at(s, e1, n) == witness_at(t, e2, n));
}

/// Two lists of the newly received events, both in the order of commits,
/// agree at place `k`.
pub proof fn lemma_commit_prefix(
    a: Graph,
    b: Graph,
    one: Seq<crate::hash::Hash>,
    two: Seq<crate::hash::Hash>,
    k: int,
)
    requires
        a.wf(),
        committed(a, b, one),
        committed(a, b, two),
        distinct_keys(a, b),
        one.len() == two.len(),
        0 <= k < one.len(),
    ensures
        one[k] == two[k],
    decreases k,
{
    let s = a.nodes();
    crate::graph::lemma_graph_shape(a);
    assert forall|i: int| 0 <= i < k implies one[i] == two[i] by {
        lemma_commit_prefix(a, b, one, two, i);
    }
    let x = one[k];
    let y = two[k];
    assert(one.contains(x));
    assert(two.contains(y));
    assert(two.contains(x));
    assert(one.contains(y));
    let j = choose|j: int| 0 <= j < two.len() && two[j] == x;
    let i = choose|i: int| 0 <= i < one.len() && one[i] == y;
    if j < k {
        assert(one[j] == two[j]);
    }
    if i < k {
        assert(two[i] == one[i]);
    }
    if x != y {
        assert(j > k && i > k);
        let px = position(s, x);
        let py = position(s, y);
        assert(s[px].hash == x && s[py].hash == y);
        let kx = order_key(b.events()[px]);
        let ky = order_key(b.events()[py]);
        assert(key_leq(ky, kx)) by {
            assert(key_leq(
                order_key(b.events()[position(s, two[k])]),
                order_key(b.events()[position(s, two[j])]),
            ));
        }
        assert(key_leq(kx, ky)) by {
            assert(key_leq(
                order_key(b.events()[position(s, one[k])]),
                order_key(b.events()[position(s, one[i])]),
            ));
        }
        crate::bytes::lemma_lex_total(kx.2, ky.2);
        assert(kx.0 == ky.0 && kx.1 == ky.1 && kx.2 == ky.2);
        assert(kx == ky);
        assert(px != py);
        assert(false);
    }
}

} // verus!
