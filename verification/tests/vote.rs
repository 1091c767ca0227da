use hashgraph::author::{Author, Identity};
use hashgraph::authors::AuthorSet;
use hashgraph::error::Error;
use hashgraph::event::RawEvent;
use hashgraph::hashgraph::HashGraph;
use hashgraph::order::{median_of, sort_times, xor};
use hashgraph::state::State;
use hashgraph::transaction::{Key, Value};
use hashgraph::vote::{Round, Voter};

fn create_graphs(n: usize) -> Vec<HashGraph> {
    let mut ids: Vec<Identity> = (0..n).map(|_| Identity::generate()).collect();
    ids.sort_by(|a, b| a.author().cmp(&b.author()));
    let authors: Vec<Author> = ids.iter().map(|id| id.author()).collect();
    let mut graphs = Vec::with_capacity(n);
    for id in ids {
        let mut graph = HashGraph::new(id, State::new());
        let mut set = AuthorSet::new();
        for author in &authors {
            set.insert(*author);
        }
        graph.genesis(set);
        graphs.push(graph);
    }
    graphs
}

fn sync_check(
    g1: &mut HashGraph,
    g2: &HashGraph,
    n: &mut u64,
    time: &mut u128,
    round: u64,
    witness: bool,
) -> hashgraph::hash::Hash {
    g1.insert(&g1.identity().to_bytes(), b"seq", Value::new(&n.to_be_bytes())).unwrap();
    *n += 1;
    *time += 1;
    let state = g1.sync_state();
    let events: Vec<RawEvent> =
        g2.outbound_sync(state).unwrap().into_iter().map(|r| r.clone()).collect();
    let hash = g1.inbound_sync(events, *time).unwrap();
    let event = g1.voter().graph().event(&hash).expect("hash is in graph");
    assert_eq!((event.round_created().unwrap(), event.witness().unwrap()), (round, witness));
    hash
}

fn check_key(g: &HashGraph, author: &Author, value: u64) {
    let key = Key::new(&author.to_bytes(), b"seq").unwrap();
    assert_eq!(g.tree().get(key.as_ref()), Some(value.to_be_bytes().to_vec()));
}

#[test]
fn consensus() {
    let mut g = create_graphs(4);
    let mut d = g.pop().unwrap();
    let mut c = g.pop().unwrap();
    let mut b = g.pop().unwrap();
    let mut a = g.pop().unwrap();
    let (mut an, mut bn, mut cn, mut dn) = (1u64, 1u64, 1u64, 1u64);
    let mut t = 1_000u128;

    let a1 = a.inbound_sync(vec![], 1).unwrap();
    let b1 = b.inbound_sync(vec![], 2).unwrap();
    let c1 = c.inbound_sync(vec![], 3).unwrap();
    let d1 = d.inbound_sync(vec![], 4).unwrap();
    /* D1.1 -> B1.0 */
    sync_check(&mut d, &b, &mut dn, &mut t, 1, false);
    /* B1.1 -> D1.1 */
    sync_check(&mut b, &d, &mut bn, &mut t, 1, false);
    /* D1.2 -> B1.1 */
    sync_check(&mut d, &b, &mut dn, &mut t, 1, false);
    /* A1.1 -> B1.1 */
    sync_check(&mut a, &b, &mut an, &mut t, 1, false);
    /* B1.2 -> C1.0 */
    sync_check(&mut b, &c, &mut bn, &mut t, 1, false);
    /* D1.3 -> B1.2 */
    sync_check(&mut d, &b, &mut dn, &mut t, 1, false);
    /* C1.1 -> B1.2 */
    sync_check(&mut c, &b, &mut cn, &mut t, 1, false);
    /* B1.3 -> D1.3 */
    sync_check(&mut b, &d, &mut bn, &mut t, 1, false);
    /* D2.0 -> A1.1 */
    let d2 = sync_check(&mut d, &a, &mut dn, &mut t, 2, true);
    /* A2.0 -> D2.0 */
    let a2 = sync_check(&mut a, &d, &mut an, &mut t, 2, true);
    /* B2.0 -> D2.0 */
    let b2 = sync_check(&mut b, &d, &mut bn, &mut t, 2, true);
    /* A2.1 -> C1.1 */
    sync_check(&mut a, &c, &mut an, &mut t, 2, false);
    /* A2.2 -> B2.0 */
    sync_check(&mut a, &b, &mut an, &mut t, 2, false);
    /* C2.0 -> A2.1 */
    let c2 = sync_check(&mut c, &a, &mut cn, &mut t, 2, true);
    /* D2.1 -> B2.0 */
    sync_check(&mut d, &b, &mut dn, &mut t, 2, false);
    /* D2.2 -> A2.2 */
    sync_check(&mut d, &a, &mut dn, &mut t, 2, false);
    /* B2.1 -> A2.2 */
    sync_check(&mut b, &a, &mut bn, &mut t, 2, false);
    /* B3.0 -> D2.2 */
    sync_check(&mut b, &d, &mut bn, &mut t, 3, true);
    /* A3.0 -> B3.0 */
    sync_check(&mut a, &b, &mut an, &mut t, 3, true);
    /* D3.0 -> B3.0 */
    sync_check(&mut d, &b, &mut dn, &mut t, 3, true);
    /* B3.1 -> A3.0 */
    sync_check(&mut b, &a, &mut bn, &mut t, 3, false);
    /* A3.1 -> B3.1 */
    sync_check(&mut a, &b, &mut an, &mut t, 3, false);
    /* D3.1 -> C2.0 */
    sync_check(&mut d, &c, &mut dn, &mut t, 3, false);
    /* C3.0 -> D3.1 */
    sync_check(&mut c, &d, &mut cn, &mut t, 3, true);
    /* B3.2 -> D3.1 */
    sync_check(&mut b, &d, &mut bn, &mut t, 3, false);
    /* A3.2 -> B3.2 */
    sync_check(&mut a, &b, &mut an, &mut t, 3, false);
    /* D3.2 -> B3.2 */
    sync_check(&mut d, &b, &mut dn, &mut t, 3, false);
    /* B3.3 -> A3.2 */
    sync_check(&mut b, &a, &mut bn, &mut t, 3, false);
    /* D4.0 -> C3.0 */
    sync_check(&mut d, &c, &mut dn, &mut t, 4, true);
    /* B4.0 -> D4.0 */
    sync_check(&mut b, &d, &mut bn, &mut t, 4, true);

    let famous = [
        (a1, true),
        (b1, true),
        (c1, true),
        (d1, true),
        (a2, true),
        (b2, true),
        (c2, false),
        (d2, true),
    ];
    for (h, f) in famous.iter() {
        for g in [&b, &d] {
            assert_eq!(g.voter().graph().event(h).unwrap().famous, Some(*f));
        }
    }

    check_key(&b, &a.identity(), 1);
    check_key(&b, &b.identity(), 2);
    check_key(&b, &d.identity(), 4);

    check_key(&d, &a.identity(), 1);
    check_key(&d, &b.identity(), 2);
    check_key(&d, &d.identity(), 4);

    // both nodes received the same events in the same rounds with the same
    // consensus times and whitened signatures
    let mut received = 0;
    for i in 0..b.voter().graph().len() {
        let eb = b.voter().graph().event_at(i);
        if let Some(ed) = d.voter().graph().event(eb.hash()) {
            if eb.round_received.is_some() && ed.round_received.is_some() {
                received += 1;
                assert_eq!(eb.round_received, ed.round_received);
                assert_eq!(eb.time_received, ed.time_received);
                assert_eq!(eb.whitened_signature, ed.whitened_signature);
            }
        }
    }
    assert_eq!(received, 11);
    assert_eq!(b.voter().graph().event(&d2).unwrap().round_received, Some(2));
    // the decided rounds come first, and only rounds 1 and 2 are decided
    let decided: Vec<bool> = b.voter().rounds().iter().map(|r| r.decided).collect();
    assert_eq!(decided, vec![true, true, false, false]);
    assert_eq!(b.voter().rounds()[1].unique_famous_witnesses.len(), 3);
    assert!(!b.voter().rounds()[1].unique_famous_witnesses.contains(&c2));

    // what is decided stays decided while the nodes go on
    let snapshot: Vec<_> = (0..b.voter().graph().len())
        .map(|i| {
            let e = b.voter().graph().event_at(i);
            (*e.hash(), e.famous, e.round_received, e.time_received, e.whitened_signature)
        })
        .collect();
    for _ in 0..3 {
        for (dst, src) in [(0, 1), (1, 0), (1, 2), (2, 1)] {
            let mut nodes = [&mut b, &mut d, &mut a];
            let state = nodes[dst].sync_state();
            let events: Vec<RawEvent> =
                nodes[src].outbound_sync(state).unwrap().into_iter().map(|r| r.clone()).collect();
            t += 1;
            nodes[dst].inbound_sync(events, t).unwrap();
        }
    }
    assert!(b.voter().graph().len() > snapshot.len());
    for (hash, famous, round, time, whitened) in snapshot {
        let e = b.voter().graph().event(&hash).unwrap();
        if famous.is_some() {
            assert_eq!(e.famous, famous);
        }
        if round.is_some() {
            assert_eq!((e.round_received, e.time_received), (round, time));
            assert_eq!(e.whitened_signature, whitened);
        }
    }
}

#[test]
fn first_event_is_witness_of_round_one() {
    let mut g = create_graphs(2);
    let mut a = g.remove(0);
    assert!(!a.has_rounds());
    let h = a.inbound_sync(vec![], 7).unwrap();
    let event = a.voter().graph().event(&h).unwrap();
    assert_eq!(event.round_created(), Some(1));
    assert_eq!(event.witness(), Some(true));
    assert_eq!(event.time(), 7);
    assert_eq!(event.author(), &a.identity());
    let rounds = a.voter().rounds();
    assert_eq!(rounds.len(), 1);
    assert_eq!(rounds[0].round(), 1);
    assert_eq!(rounds[0].block, 1);
    assert_eq!(rounds[0].population(), 2);
    assert_eq!(rounds[0].witnesses(), &[h][..]);
    assert_eq!(rounds[0].freq_coin_rounds(), 10);
    assert!(a.has_rounds());
    let (block, seqs) = a.sync_state();
    assert_eq!(block, 1);
    assert_eq!(seqs.iter().filter(|s| **s == Some(1)).count(), 1);
    assert_eq!(seqs.iter().filter(|s| s.is_none()).count(), 1);
}

#[test]
fn self_parent_chain_stays_in_round() {
    let mut g = create_graphs(3);
    let mut a = g.remove(0);
    let h1 = a.inbound_sync(vec![], 1).unwrap();
    let h2 = a.inbound_sync(vec![], 2).unwrap();
    let e2 = a.voter().graph().event(&h2).unwrap();
    assert_eq!(e2.self_parent(), Some(&h1));
    assert_eq!(e2.seq(), 2);
    // alone, a strongly sees one of three: not more than two thirds
    assert_eq!((e2.round_created(), e2.witness()), (Some(1), Some(false)));
    assert!(a.voter().rounds()[0].witnesses().len() == 1);
}

#[test]
fn outbound_sync_refuses_unknown_block() {
    let mut g = create_graphs(2);
    let mut a = g.remove(0);
    a.inbound_sync(vec![], 1).unwrap();
    assert_eq!(a.outbound_sync((9, vec![None, None])).err(), Some(Error::InvalidSync));
    assert_eq!(a.outbound_sync((1, vec![None, None])).unwrap().len(), 1);
    assert_eq!(a.outbound_sync((1, vec![])).unwrap().len(), 1);
}

#[test]
fn inbound_sync_refuses_unknown_parent() {
    let mut g = create_graphs(2);
    let mut b = g.pop().unwrap();
    let mut a = g.pop().unwrap();
    a.inbound_sync(vec![], 1).unwrap();
    a.inbound_sync(vec![], 2).unwrap();
    let events: Vec<RawEvent> =
        a.outbound_sync((1, vec![None, None])).unwrap().into_iter().map(|r| r.clone()).collect();
    let second = vec![events[1].clone()];
    assert_eq!(b.inbound_sync(second, 3), Err(Error::InvalidEvent));
    assert_eq!(b.voter().graph().len(), 0);
    assert!(b.inbound_sync(events, 4).is_ok());
    assert_eq!(b.voter().graph().len(), 3);
}

#[test]
fn threshold_is_two_thirds_rounded_down() {
    let author = Identity::generate().author();
    for (n, t) in [(0usize, 0usize), (1, 0), (2, 1), (3, 2), (4, 2), (5, 3), (6, 4), (7, 4)] {
        let round = Round::new(1, 1, vec![author; n]);
        assert_eq!(round.population(), n);
        assert_eq!(round.threshold(), t);
    }
}

#[test]
fn process_rounds_on_empty_voter() {
    let mut voter = Voter::new();
    assert!(voter.process_rounds().is_empty());
    assert!(voter.rounds().is_empty());
    assert_eq!(voter.graph().len(), 0);
}

#[test]
fn median_is_the_later_of_two_in_the_middle() {
    assert_eq!(median_of(&vec![5]), 5);
    assert_eq!(median_of(&vec![9, 1]), 9);
    assert_eq!(median_of(&vec![3, 1, 2]), 2);
    assert_eq!(median_of(&vec![4, 1, 3, 2]), 3);
    assert_eq!(sort_times(&vec![3, 1, 2, 1]), vec![1, 1, 2, 3]);
    assert_eq!(sort_times(&vec![]), Vec::<u128>::new());
}

#[test]
fn xor_is_bytewise() {
    let mut x = [0u8; 64];
    let mut y = [0u8; 64];
    x[0] = 0b1100;
    y[0] = 0b1010;
    x[63] = 0xff;
    let z = xor(&x, &y);
    assert_eq!(z[0], 0b0110);
    assert_eq!(z[63], 0xff);
    assert_eq!(z[1], 0);
    assert_eq!(xor(&z, &y), x);
}

#[test]
fn inbound_sync_takes_known_events_again() {
    let mut g = create_graphs(2);
    let mut b = g.pop().unwrap();
    let mut a = g.pop().unwrap();
    a.inbound_sync(vec![], 1).unwrap();
    a.inbound_sync(vec![], 2).unwrap();
    let events: Vec<RawEvent> =
        a.outbound_sync((1, vec![None, None])).unwrap().into_iter().map(|r| r.clone()).collect();
    assert_eq!(events.len(), 2);
    let h = b.inbound_sync(events.clone(), 3).unwrap();
    assert_eq!(b.voter().graph().len(), 3);
    let rounds = b.voter().rounds().len();
    let h2 = b.inbound_sync(events, 4).unwrap();
    assert_eq!(b.voter().graph().len(), 4);
    assert_eq!(b.voter().rounds().len(), rounds);
    let own = b.voter().graph().event(&h2).unwrap();
    assert_eq!(own.self_parent(), Some(&h));
    assert_eq!(own.seq(), 2);
    let mut voter = Voter::new();
    let mut state = State::new();
    let mut set = AuthorSet::new();
    set.insert(a.identity());
    state.genesis(set);
    let first = a.outbound_sync((1, vec![None, None])).unwrap()[0].clone();
    let x = voter.add_event(first.clone(), &mut state).unwrap();
    assert_eq!(voter.add_event(first, &mut state), Ok(x));
    assert_eq!(voter.graph().len(), 1);
    assert_eq!(voter.rounds().len(), 1);
}

#[test]
fn a_node_with_mismatched_keys_refuses_its_own_event() {
    let id = Identity::generate();
    let other = Identity::generate();
    let mut mixed = id.to_bytes();
    mixed[32..].copy_from_slice(&other.author().to_bytes());
    let broken = Identity::from_bytes(&mixed).unwrap();
    let mut set = AuthorSet::new();
    set.insert(broken.author());
    let mut node = HashGraph::new(broken, State::new());
    node.genesis(set);
    assert_eq!(node.inbound_sync(vec![], 1), Err(Error::InvalidEvent));
    assert_eq!(node.voter().graph().len(), 0);
}

#[test]
fn take_answers_empties_the_answers() {
    let mut g = create_graphs(1);
    let mut a = g.remove(0);
    let me = a.identity().to_bytes();
    let ticket = a.insert(&me, b"k", Value::new(b"v")).unwrap();
    assert!(a.take_answers().is_empty());
    for t in 1..12u128 {
        a.inbound_sync(vec![], t).unwrap();
    }
    let answers = a.take_answers();
    assert_eq!(answers.len(), 1);
    assert_eq!(answers[0].0, ticket);
    assert_eq!(answers[0].1, Ok(()));
    assert!(a.take_answers().is_empty());
    let key = Key::new(&me, b"k").unwrap();
    assert_eq!(a.tree().get(key.as_ref()), Some(b"v".to_vec()));
}

#[test]
fn two_voters_fed_alike_commit_alike() {
    let mut nodes = create_graphs(4);
    let authors: Vec<Author> = nodes.iter().map(|n| n.identity()).collect();
    let mut t = 0u128;
    for node in nodes.iter_mut() {
        t += 1;
        node.inbound_sync(vec![], t).unwrap();
    }
    for _ in 0..12 {
        for (dst, src) in [(0, 1), (1, 2), (2, 3), (3, 0), (0, 2), (1, 3), (2, 0), (3, 1)] {
            let state = nodes[dst].sync_state();
            let events: Vec<RawEvent> =
                nodes[src].outbound_sync(state).unwrap().into_iter().map(|r| r.clone()).collect();
            t += 1;
            nodes[dst].inbound_sync(events, t).unwrap();
        }
    }
    let graph = nodes[0].voter().graph();
    let events: Vec<RawEvent> = (0..graph.len()).map(|i| graph.event_at(i).raw.clone()).collect();

    let fresh = || {
        let mut set = AuthorSet::new();
        for author in &authors {
            set.insert(*author);
        }
        let mut state = State::new();
        state.genesis(set);
        (Voter::new(), state)
    };
    let (mut one, mut state_one) = fresh();
    let (mut two, mut state_two) = fresh();
    let mut out_one = Vec::new();
    let mut out_two = Vec::new();
    for (i, event) in events.iter().enumerate() {
        let h1 = one.add_event(event.clone(), &mut state_one).unwrap();
        let h2 = two.add_event(event.clone(), &mut state_two).unwrap();
        assert_eq!(h1, h2);
        if i % 3 == 2 {
            out_one.extend(one.process_rounds());
            out_two.extend(two.process_rounds());
        }
    }
    out_one.extend(one.process_rounds());
    out_two.extend(two.process_rounds());
    assert!(
        !out_one.is_empty(),
        "events {} rounds {} decided {:?} node rounds {} node decided {:?}",
        events.len(),
        one.rounds().len(),
        one.rounds().iter().map(|r| r.decided).collect::<Vec<bool>>(),
        nodes[0].voter().rounds().len(),
        nodes[0].voter().rounds().iter().map(|r| r.decided).collect::<Vec<bool>>()
    );
    assert_eq!(out_one, out_two);
    for i in 0..one.graph().len() {
        let a = one.graph().event_at(i);
        let b = two.graph().event_at(i);
        assert_eq!(a.hash(), b.hash());
        assert_eq!((a.round_created(), a.witness()), (b.round_created(), b.witness()));
        assert_eq!((a.famous, a.round_received, a.time_received), (b.famous, b.round_received, b.time_received));
        assert_eq!(a.whitened_signature, b.whitened_signature);
    }
}
