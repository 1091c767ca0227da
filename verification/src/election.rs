//! The election of famous witnesses, as mathematics: the vote that each
//! later witness casts on a witness, and the decision that the votes come
//! to.
use crate::author::Author;
use crate::dag::{sees, strongly_sees, Node};
use crate::event::{vote_in, Event};
use crate::vote::{seen_count, threshold_of, Round, FREQ_COIN_ROUNDS};
use vstd::prelude::*;

verus! {

/// What an election reads of a round: its committee and the positions of
/// its witnesses.
pub struct Committee {
    pub authors: Seq<Author>,
    pub places: Seq<usize>,
}

/// What the elections read of the rounds.
pub open spec fn committees(rounds: Seq<Round>) -> Seq<Committee> {
    Seq::new(
        rounds.len(),
        |k: int| Committee { authors: rounds[k].authors@, places: rounds[k].places@ },
    )
}

/// The coin of each event: the lowest bit of byte 32 of its signature.
pub open spec fn coin_bits(events: Seq<Event>) -> Seq<bool> {
    Seq::new(events.len(), |v: int| events[v].raw.signature@[32] & 1 == 1)
}

/// The greater of two counts.
pub open spec fn larger(a: int, b: int) -> int {
    if a >= b {
        a
    } else {
        b
    }
}

/// The witnesses of the round at place `k` that the event at `v` strongly
/// sees, counted.
pub open spec fn seen_in(s: Seq<Node>, rounds: Seq<Committee>, k: int, v: int) -> int {
    seen_count(s, v, rounds[k].places, rounds[k].authors, rounds[k].places.len() as int)
}

/// The vote of the witness at `v`, of the round at place `r`, on the fame
/// of the witness at `w`, of the round at place `i`. In the round after
/// `i` the vote is whether `v` sees `w`. Later it is the vote of the
/// majority (yes on a tie) of the witnesses of the round before that `v`
/// strongly sees; but in every tenth round after `i`, where neither side
/// has more votes than two thirds of the committee, it is the coin of `v`.
pub open spec fn vote_of(
    s: Seq<Node>,
    coins: Seq<bool>,
    rounds: Seq<Committee>,
    i: int,
    r: int,
    v: int,
    w: int,
) -> bool
    decreases r, 0int,
{
    if i < 0 || r <= i + 1 || r >= rounds.len() {
        sees(s, v, w)
    } else {
        let yes = yes_count(s, coins, rounds, i, r - 1, v, w, rounds[r - 1].places.len() as int);
        let no = seen_in(s, rounds, r - 1, v) - yes;
        if (r - i) % (FREQ_COIN_ROUNDS as int) != 0 || larger(yes, no) > threshold_of(
            rounds[r].authors.len() as int,
        ) {
            yes >= no
        } else {
            coins[v]
        }
    }
}

/// How many of the first `n` witnesses of the round at place `k` the event
/// at `v` strongly sees and finds voting yes on the fame of `w`.
pub open spec fn yes_count(
    s: Seq<Node>,
    coins: Seq<bool>,
    rounds: Seq<Committee>,
    i: int,
    k: int,
    v: int,
    w: int,
    n: int,
) -> int
    decreases k, n + 1,
{
    if n <= 0 || k < 0 || k >= rounds.len() {
        0
    } else {
        yes_count(s, coins, rounds, i, k, v, w, n - 1) + (if strongly_sees(
            s,
            v,
            rounds[k].places[n - 1] as int,
            rounds[k].authors,
        ) && vote_of(s, coins, rounds, i, k, rounds[k].places[n - 1] as int, w) {
            1int
        } else {
            0int
        })
    }
}

/// Whether the witness at `v`, of the round at place `r`, decides the fame
/// of the witness at `w`, of the round at place `i`: it is at least two
/// rounds later, not in a coin round, and one side has more votes than two
/// thirds of its committee.
pub open spec fn decides(
    s: Seq<Node>,
    coins: Seq<bool>,
    rounds: Seq<Committee>,
    i: int,
    r: int,
    v: int,
    w: int,
) -> bool {
    let yes = yes_count(s, coins, rounds, i, r - 1, v, w, rounds[r - 1].places.len() as int);
    let no = seen_in(s, rounds, r - 1, v) - yes;
    &&& 0 <= i
    &&& i + 1 < r < rounds.len()
    &&& (r - i) % (FREQ_COIN_ROUNDS as int) != 0
    &&& larger(yes, no) > threshold_of(rounds[r].authors.len() as int)
}

/// The decision on the fame of the witness at `w`, of the round at place
/// `i`, that the voters before the `j`-th witness of the round at place `r`
/// come to: the vote of the first of them that decides.
pub open spec fn decision_before(
    s: Seq<Node>,
    coins: Seq<bool>,
    rounds: Seq<Committee>,
    i: int,
    w: int,
    r: int,
    j: int,
) -> Option<bool>
    decreases r, j,
{
    if i < 0 || r <= i + 1 || r > rounds.len() {
        None
    } else if j <= 0 || r == rounds.len() {
        decision_before(s, coins, rounds, i, w, r - 1, rounds[r - 1].places.len() as int)
    } else {
        match decision_before(s, coins, rounds, i, w, r, j - 1) {
            Some(d) => Some(d),
            None => if decides(s, coins, rounds, i, r, rounds[r].places[j - 1] as int, w) {
                Some(vote_of(s, coins, rounds, i, r, rounds[r].places[j - 1] as int, w))
            } else {
                None
            },
        }
    }
}

/// The decision on the fame of the witness at `w`, of the round at place
/// `i`, that the witnesses of all later rounds come to.
pub open spec fn decision(s: Seq<Node>, coins: Seq<bool>, rounds: Seq<Committee>, i: int, w: int) -> Option<
    bool,
> {
    decision_before(s, coins, rounds, i, w, rounds.len() as int, 0)
}


/// How many of the first `n` witnesses of the round at place `k` the event
/// at `v` strongly sees and finds with a recorded yes on the witness with
/// digest `wh`.
pub open spec fn stored_yes(
    s: Seq<Node>,
    events: Seq<Event>,
    rounds: Seq<Committee>,
    k: int,
    v: int,
    wh: crate::hash::Hash,
    n: int,
) -> int
    decreases n,
{
    if n <= 0 {
        0
    } else {
        stored_yes(s, events, rounds, k, v, wh, n - 1) + (if strongly_sees(
            s,
            v,
            rounds[k].places[n - 1] as int,
            rounds[k].authors,
        ) && vote_in(events[rounds[k].places[n - 1] as int].votes@, wh) == Some(true) {
            1int
        } else {
            0int
        })
    }
}

/// Whether the `j`-th witness of the round at place `r` has its vote on the
/// witness at `w` recorded.
pub open spec fn cast_ok(
    s: Seq<Node>,
    events: Seq<Event>,
    coins: Seq<bool>,
    rounds: Seq<Committee>,
    i: int,
    w: int,
    r: int,
    j: int,
) -> bool {
    let v = rounds[r].places[j] as int;
    vote_in(events[v].votes@, s[w].hash) == Some(vote_of(s, coins, rounds, i, r, v, w))
}

/// Whether every voter before the `j`-th witness of the round at place `r`
/// has its vote on the witness at `w` recorded.
pub open spec fn votes_cast(
    s: Seq<Node>,
    events: Seq<Event>,
    coins: Seq<bool>,
    rounds: Seq<Committee>,
    i: int,
    w: int,
    r: int,
    j: int,
) -> bool {
    forall|r2: int, j2: int|
        i < r2 < rounds.len() && 0 <= j2 < rounds[r2].places.len() && (r2 < r || (r2 == r && j2
            < j)) ==> #[trigger] cast_ok(s, events, coins, rounds, i, w, r2, j2)
}

/// Where the votes of a round are recorded, the recorded yes votes that a
/// voter finds are the yes votes of the election.
pub proof fn lemma_stored_yes(
    s: Seq<Node>,
    events: Seq<Event>,
    coins: Seq<bool>,
    rounds: Seq<Committee>,
    i: int,
    w: int,
    k: int,
    v: int,
    n: int,
)
    requires
        0 <= i < k < rounds.len(),
        0 <= n <= rounds[k].places.len(),
        forall|j2: int|
            0 <= j2 < rounds[k].places.len() ==> #[trigger] cast_ok(
                s,
                events,
                coins,
                rounds,
                i,
                w,
                k,
                j2,
            ),
    ensures
        stored_yes(s, events, rounds, k, v, s[w].hash, n) == yes_count(
            s,
            coins,
            rounds,
            i,
            k,
            v,
            w,
            n,
        ),
    decreases n,
{
    if n > 0 {
        lemma_stored_yes(s, events, coins, rounds, i, w, k, v, n - 1);
        assert(cast_ok(s, events, coins, rounds, i, w, k, n - 1));
    }
}

} // verus!
