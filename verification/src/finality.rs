//! What a decided round settles, as mathematics: its unique famous
//! witnesses, the events that it receives, and their consensus time and
//! whitened signature.
use crate::author::Author;
use crate::dag::{ancestor, Node};
use crate::event::Event;
use crate::order::{median, xor_bytes};
use vstd::prelude::*;

verus! {

/// The time that the author of each event claims for it.
pub open spec fn claimed_times(events: Seq<Event>) -> Seq<u128> {
    Seq::new(events.len(), |x: int| events[x].raw.event.time)
}

/// The signature of each event.
pub open spec fn signatures(events: Seq<Event>) -> Seq<Seq<u8>> {
    Seq::new(events.len(), |x: int| events[x].raw.signature@)
}

/// The fame of each event.
pub open spec fn fames(events: Seq<Event>) -> Seq<Option<bool>> {
    Seq::new(events.len(), |x: int| events[x].famous)
}

/// The round in which each event was received.
pub open spec fn rounds_received(events: Seq<Event>) -> Seq<Option<u64>> {
    Seq::new(events.len(), |x: int| events[x].round_received)
}

/// How many of the first `n` of the witnesses at `places` are by `a`.
pub open spec fn author_witnesses(s: Seq<Node>, places: Seq<usize>, a: Author, n: int) -> int
    decreases n,
{
    if n <= 0 {
        0
    } else {
        author_witnesses(s, places, a, n - 1) + (if s[places[n - 1] as int].author == a {
            1int
        } else {
            0int
        })
    }
}

/// Whether the witness at `p` is a unique famous witness of its round: it
/// is famous, and its author has no other witness among those at `places`.
pub open spec fn unique_famous_at(s: Seq<Node>, fame: Seq<Option<bool>>, places: Seq<usize>, p: usize) -> bool {
    fame[p as int] == Some(true) && author_witnesses(
        s,
        places,
        s[p as int].author,
        places.len() as int,
    ) == 1
}

/// The unique famous witnesses among the first `n` of the witnesses at
/// `places`, in the order of their arrival.
pub open spec fn unique_famous(s: Seq<Node>, fame: Seq<Option<bool>>, places: Seq<usize>, n: int) -> Seq<
    usize,
>
    decreases n,
{
    if n <= 0 {
        Seq::empty()
    } else if unique_famous_at(s, fame, places, places[n - 1]) {
        unique_famous(s, fame, places, n - 1).push(places[n - 1])
    } else {
        unique_famous(s, fame, places, n - 1)
    }
}

/// Whether the event at `e` is an ancestor of each of the first `n`
/// witnesses at `ufw`.
pub open spec fn shared_by(s: Seq<Node>, ufw: Seq<usize>, n: int, e: int) -> bool {
    forall|k: int| 0 <= k < n ==> #[trigger] ancestor(s, ufw[k] as int, e)
}

/// An event is shared by one more witness where it is shared by those
/// before and is an ancestor of that one.
pub proof fn lemma_shared_step(s: Seq<Node>, ufw: Seq<usize>, k: int, e: int)
    requires
        0 <= k,
    ensures
        shared_by(s, ufw, k + 1, e) == (shared_by(s, ufw, k, e) && ancestor(s, ufw[k] as int, e)),
{
    if shared_by(s, ufw, k + 1, e) {
        assert(ancestor(s, ufw[k] as int, e));
        assert forall|j: int| 0 <= j < k implies #[trigger] ancestor(s, ufw[j] as int, e) by {}
    }
    if shared_by(s, ufw, k, e) && ancestor(s, ufw[k] as int, e) {
        assert forall|j: int| 0 <= j < k + 1 implies #[trigger] ancestor(s, ufw[j] as int, e) by {
            if j < k {
            }
        }
    }
}

/// The signatures of the first `n` witnesses at `ufw`, combined by
/// exclusive-or.
pub open spec fn whitener(sigs: Seq<Seq<u8>>, ufw: Seq<usize>, n: int) -> Seq<u8>
    decreases n,
{
    if n <= 1 {
        sigs[ufw[0] as int]
    } else {
        xor_bytes(whitener(sigs, ufw, n - 1), sigs[ufw[n - 1] as int])
    }
}

/// The earliest self-ancestor of the event at `w` that has the event at `e`
/// as an ancestor: where the author of `w` learned of `e`.
pub open spec fn learned_at(s: Seq<Node>, w: int, e: int) -> int
    decreases w,
{
    match s[w].self_parent {
        Some(p) => if 0 <= w && p < w && ancestor(s, p as int, e) {
            learned_at(s, p as int, e)
        } else {
            w
        },
        None => w,
    }
}

/// For each of the witnesses at `ufw`, the time that its author claimed for
/// the event by which it learned of the event at `e`.
pub open spec fn learned_times(s: Seq<Node>, times: Seq<u128>, ufw: Seq<usize>, e: int) -> Seq<u128> {
    Seq::new(ufw.len(), |k: int| times[learned_at(s, ufw[k] as int, e)])
}

/// The consensus time of the event at `e`: the median of the times at which
/// the authors of the witnesses at `ufw` learned of it.
pub open spec fn consensus_time(s: Seq<Node>, times: Seq<u128>, ufw: Seq<usize>, e: int) -> u128 {
    median(learned_times(s, times, ufw, e))
}

/// The whitened signature of the event at `e`: its signature, combined by
/// exclusive-or with those of the witnesses at `ufw`.
pub open spec fn whitened(sigs: Seq<Seq<u8>>, ufw: Seq<usize>, e: int) -> Seq<u8> {
    xor_bytes(whitener(sigs, ufw, ufw.len() as int), sigs[e])
}

/// Whether the round with the unique famous witnesses `ufw` receives the
/// event at `e`: there is such a witness, and `e` is an ancestor of each.
pub open spec fn receives(s: Seq<Node>, ufw: Seq<usize>, e: int) -> bool {
    ufw.len() > 0 && shared_by(s, ufw, ufw.len() as int, e)
}

/// Whether `b` is the event `a` as the round `round`, with the unique
/// famous witnesses `ufw`, receives it at position `e`.
pub open spec fn received_as(
    s: Seq<Node>,
    times: Seq<u128>,
    sigs: Seq<Seq<u8>>,
    ufw: Seq<usize>,
    round: u64,
    e: int,
    a: Event,
    b: Event,
) -> bool {
    &&& b.raw == a.raw
    &&& b.hash == a.hash
    &&& b.seq == a.seq
    &&& b.parents == a.parents
    &&& b.children == a.children
    &&& b.round_created == a.round_created
    &&& b.witness == a.witness
    &&& b.votes == a.votes
    &&& b.famous == a.famous
    &&& b.round_received == Some(round)
    &&& b.time_received == Some(consensus_time(s, times, ufw, e))
    &&& b.whitened_signature is Some
    &&& b.whitened_signature.unwrap()@ == whitened(sigs, ufw, e)
}


/// The positions below `n` of the events that the round with the unique
/// famous witnesses `ufw` newly receives: those that no round received yet
/// and that are an ancestor of each of the witnesses; in ascending order.
pub open spec fn newly_received(s: Seq<Node>, got: Seq<Option<u64>>, ufw: Seq<usize>, n: int) -> Seq<usize>
    decreases n,
{
    if n <= 0 {
        Seq::empty()
    } else if got[n - 1] is None && shared_by(s, ufw, ufw.len() as int, n - 1) {
        newly_received(s, got, ufw, n - 1).push((n - 1) as usize)
    } else {
        newly_received(s, got, ufw, n - 1)
    }
}

/// The newly received positions are exactly the positions of the events
/// that were not received yet and are shared by the witnesses, each once,
/// in ascending order.
pub proof fn lemma_newly_received(s: Seq<Node>, got: Seq<Option<u64>>, ufw: Seq<usize>, n: int)
    requires
        0 <= n <= usize::MAX,
    ensures
        forall|t: int|
            0 <= t < newly_received(s, got, ufw, n).len() ==> {
                let x = #[trigger] newly_received(s, got, ufw, n)[t];
                &&& x < n
                &&& got[x as int] is None
                &&& shared_by(s, ufw, ufw.len() as int, x as int)
            },
        forall|t: int, t2: int|
            0 <= t < t2 < newly_received(s, got, ufw, n).len() ==> newly_received(
                s,
                got,
                ufw,
                n,
            )[t] < newly_received(s, got, ufw, n)[t2],
        forall|x: int|
            0 <= x < n && got[x] is None && shared_by(
                s,
                ufw,
                ufw.len() as int,
                x,
            ) ==> newly_received(s, got, ufw, n).contains(x as usize),
    decreases n,
{
    if n > 0 {
        lemma_newly_received(s, got, ufw, n - 1);
        let prev = newly_received(s, got, ufw, n - 1);
        let cur = newly_received(s, got, ufw, n);
        if got[n - 1] is None && shared_by(s, ufw, ufw.len() as int, n - 1) {
            assert(cur == prev.push((n - 1) as usize));
            assert(cur[prev.len() as int] == (n - 1) as usize);
            assert forall|x: int|
                0 <= x < n && got[x] is None && shared_by(
                    s,
                    ufw,
                    ufw.len() as int,
                    x,
                ) implies cur.contains(x as usize) by {
                if x < n - 1 {
                    assert(prev.contains(x as usize));
                    let t = choose|t: int| 0 <= t < prev.len() && prev[t] == x as usize;
                    assert(cur[t] == x as usize);
                } else {
                    assert(cur[prev.len() as int] == x as usize);
                }
            }
        }
    }
}


/// Of the rounds at places `from` up to `to`, the first whose unique famous
/// witnesses receive the event at `e`. `ufws` lists the unique famous
/// witnesses of each round.
pub open spec fn first_receiver(s: Seq<Node>, ufws: Seq<Seq<usize>>, from: int, to: int, e: int) -> Option<
    int,
>
    decreases to - from,
{
    if to <= from {
        None
    } else {
        match first_receiver(s, ufws, from, to - 1, e) {
            Some(k) => Some(k),
            None => if receives(s, ufws[to - 1], e) {
                Some(to - 1)
            } else {
                None
            },
        }
    }
}

/// The first receiver lies among the rounds asked, and depends on their
/// unique famous witnesses only.
pub proof fn lemma_first_receiver(
    s: Seq<Node>,
    a: Seq<Seq<usize>>,
    b: Seq<Seq<usize>>,
    from: int,
    to: int,
    e: int,
)
    requires
        forall|k: int| from <= k < to ==> a[k] == b[k],
    ensures
        first_receiver(s, a, from, to, e) == first_receiver(s, b, from, to, e),
        first_receiver(s, a, from, to, e) matches Some(k) ==> from <= k < to && receives(
            s,
            a[k],
            e,
        ),
    decreases to - from,
{
    if to > from {
        lemma_first_receiver(s, a, b, from, to - 1, e);
    }
}

/// Whether `b` is an event that the round `round`, with the unique famous
/// witnesses `ufw`, received at position `e`: it has the number of the
/// round, its consensus time and its whitened signature.
pub open spec fn received_with(
    s: Seq<Node>,
    times: Seq<u128>,
    sigs: Seq<Seq<u8>>,
    ufw: Seq<usize>,
    round: u64,
    e: int,
    b: Event,
) -> bool {
    &&& b.round_received == Some(round)
    &&& b.time_received == Some(consensus_time(s, times, ufw, e))
    &&& b.whitened_signature is Some
    &&& b.whitened_signature.unwrap()@ == whitened(sigs, ufw, e)
}

} // verus!
