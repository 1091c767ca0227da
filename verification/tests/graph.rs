use hashgraph::author::Identity;
use hashgraph::error::Error;
use hashgraph::event::{Event, RawEvent, UnsignedRawEvent};
use hashgraph::graph::Graph;
use hashgraph::transaction::{Key, Transaction, Value};
use std::time::{SystemTime, UNIX_EPOCH};

fn now() -> u128 {
    SystemTime::now().duration_since(UNIX_EPOCH).unwrap().as_nanos()
}

fn raw_event(id: &Identity, self_hash: Option<hashgraph::hash::Hash>, other_hash: Option<hashgraph::hash::Hash>) -> RawEvent {
    UnsignedRawEvent {
        payload: vec![],
        self_hash,
        other_hash,
        time: now(),
        author: id.author(),
    }
    .sign(id)
    .1
}

#[test]
fn test_see() {
    let a1 = Identity::generate();
    let a2 = Identity::generate();
    let mut g = Graph::new();
    let e1 = raw_event(&a1, None, None);
    let h1 = g.add_event(e1).unwrap();
    let e2 = raw_event(&a2, None, Some(h1));
    let h2 = g.add_event(e2).unwrap();
    assert!(!g.see(&h1, &h2));
    assert!(g.see(&h2, &h1));
}

#[test]
fn test_strongly_see() {
    let a = Identity::generate();
    let b = Identity::generate();
    let c = Identity::generate();
    let authors = [a.author(), b.author(), c.author()];
    let mut g = Graph::new();
    let a1 = raw_event(&a, None, None);
    let ha1 = g.add_event(a1).unwrap();
    let b1 = raw_event(&b, None, Some(ha1));
    let hb1 = g.add_event(b1).unwrap();
    let c1 = raw_event(&c, None, Some(hb1));
    let hc1 = g.add_event(c1).unwrap();
    let a2 = raw_event(&a, Some(ha1), Some(hc1));
    let ha2 = g.add_event(a2).unwrap();
    assert!(g.strongly_see(&ha2, &ha1, &authors));
}

#[test]
fn add_event_sets_seq_parents_and_children() {
    let a = Identity::generate();
    let b = Identity::generate();
    let mut g = Graph::new();
    let h1 = g.add_event(raw_event(&a, None, None)).unwrap();
    let h2 = g.add_event(raw_event(&b, None, Some(h1))).unwrap();
    let h3 = g.add_event(raw_event(&a, Some(h1), Some(h2))).unwrap();
    assert_eq!(g.len(), 3);
    assert_eq!(g.root(), Some(h3));
    let e1 = g.event(&h1).unwrap();
    let e2 = g.event(&h2).unwrap();
    let e3 = g.event(&h3).unwrap();
    assert_eq!((e1.seq(), e2.seq(), e3.seq()), (1, 1, 2));
    assert_eq!(e3.parents(), &[h1, h2][..]);
    assert_eq!(e1.children(), &[h2, h3][..]);
    assert_eq!(e2.children(), &[h3][..]);
    assert_eq!(e3.self_parent(), Some(&h1));
    assert!(e3.round_created().is_none() && e3.witness().is_none());
    assert_eq!(g.parents(e3).len(), 2);
    assert_eq!(g.self_parent(e3).unwrap().hash(), &h1);
    assert_eq!(g.children(e1).len(), 2);
}

#[test]
fn add_event_rejects_unknown_parent_and_leaves_graph() {
    let a = Identity::generate();
    let mut g = Graph::new();
    let h1 = g.add_event(raw_event(&a, None, None)).unwrap();
    let ghost = hashgraph::hash::Hash::from_bytes(&[7u8; 32]);
    assert_eq!(g.add_event(raw_event(&a, Some(ghost), None)), Err(Error::InvalidEvent));
    assert_eq!(g.add_event(raw_event(&a, Some(h1), Some(ghost))), Err(Error::InvalidEvent));
    assert_eq!(g.len(), 1);
    assert_eq!(g.root(), Some(h1));
    assert!(g.event(&h1).unwrap().children().is_empty());
}

#[test]
fn add_event_rejects_bad_signature() {
    let a = Identity::generate();
    let b = Identity::generate();
    let mut g = Graph::new();
    let good = raw_event(&a, None, None);
    let forged = RawEvent { event: good.event.clone(), signature: b.sign(b"other") };
    assert_eq!(g.add_event(forged), Err(Error::InvalidEvent));
    assert_eq!(g.len(), 0);
    let h = g.add_event(good).unwrap();
    assert_eq!(g.len(), 1);
    let event = g.event(&h).unwrap();
    assert!(event.author().verify(&event.hash().bytes, event.signature()));
}

#[test]
fn add_event_takes_a_known_event_and_changes_nothing() {
    let a = Identity::generate();
    let b = Identity::generate();
    let mut g = Graph::new();
    let first = raw_event(&a, None, None);
    let again = first.clone();
    let h = g.add_event(first).unwrap();
    let child = raw_event(&b, None, Some(h));
    let child_again = child.clone();
    let c = g.add_event(child).unwrap();
    assert_eq!(g.add_event(again), Ok(h));
    assert_eq!(g.add_event(child_again), Ok(c));
    assert_eq!(g.len(), 2);
    let event = g.event(&h).unwrap();
    assert_eq!(event.seq(), 1);
    assert_eq!(event.children, vec![c]);
    assert_eq!(g.event(&c).unwrap().seq(), 1);
}

#[test]
fn a_child_of_one_event_twice_is_listed_once() {
    let a = Identity::generate();
    let mut g = Graph::new();
    let h = g.add_event(raw_event(&a, None, None)).unwrap();
    let c = g.add_event(raw_event(&a, Some(h), Some(h))).unwrap();
    assert_eq!(g.event(&h).unwrap().children, vec![c]);
    assert_eq!(g.event(&c).unwrap().seq(), 2);
}

#[test]
fn an_unknown_event_comes_first_among_its_ancestors() {
    let a = Identity::generate();
    let b = Identity::generate();
    let first = raw_event(&a, None, None);
    let mut g = Graph::new();
    let mut other = Graph::new();
    let ha = g.add_event(first.clone()).unwrap();
    assert_eq!(other.add_event(first), Ok(ha));
    let second = raw_event(&b, None, Some(ha));
    let hb = g.add_event(second.clone()).unwrap();
    assert_eq!(other.add_event(second), Ok(hb));
    let hc = other.add_event(raw_event(&a, Some(ha), Some(hb))).unwrap();
    let stranger = other.event(&hc).unwrap();
    assert!(g.event(&hc).is_none());
    let up: Vec<hashgraph::hash::Hash> = g.ancestors(stranger).iter().map(|e| *e.hash()).collect();
    assert_eq!(up, vec![hc, hb, ha]);
    let chain: Vec<hashgraph::hash::Hash> =
        g.self_ancestors(stranger).iter().map(|e| *e.hash()).collect();
    assert_eq!(chain, vec![hc, ha]);
    let down: Vec<hashgraph::hash::Hash> = g.decendants(stranger).iter().map(|e| *e.hash()).collect();
    assert_eq!(down, vec![hc]);
    let ea = g.event(&ha).unwrap();
    let eb = g.event(&hb).unwrap();
    assert!(g.ancestor(stranger, stranger));
    assert!(g.ancestor(stranger, ea));
    assert!(g.ancestor(stranger, eb));
    assert!(!g.ancestor(ea, stranger));
    assert!(g.self_ancestor(stranger, stranger));
    assert!(g.self_ancestor(stranger, ea));
    assert!(!g.self_ancestor(stranger, eb));
    // an event that the graph holds is looked up, whatever children it lists
    let listed = other.event(&ha).unwrap();
    let down: Vec<hashgraph::hash::Hash> = g.decendants(listed).iter().map(|e| *e.hash()).collect();
    assert_eq!(down, vec![hb, ha]);
    // an event of an empty graph that lists known children
    let raw = raw_event(&a, None, None);
    let early = Event {
        hash: raw.event.clone().hash(),
        raw,
        seq: 1,
        parents: vec![],
        children: vec![hb],
        round_created: None,
        witness: None,
        votes: vec![],
        famous: None,
        round_received: None,
        time_received: None,
        whitened_signature: None,
    };
    let down: Vec<hashgraph::hash::Hash> = g.decendants(&early).iter().map(|e| *e.hash()).collect();
    assert_eq!(down, vec![hb, early.hash]);
    let mut empty = Graph::new();
    let hd = empty.add_event(raw_event(&b, None, None)).unwrap();
    let up: Vec<hashgraph::hash::Hash> = empty.ancestors(stranger).iter().map(|e| *e.hash()).collect();
    assert_eq!(up, vec![hc]);
    assert_ne!(hd, hc);
}

#[test]
fn event_hash_covers_payload_and_time() {
    let a = Identity::generate();
    let key = Key::new(b"p", b"k").unwrap();
    let base = UnsignedRawEvent {
        payload: vec![Transaction::Insert(key.clone(), Value::new(b"v"))],
        self_hash: None,
        other_hash: None,
        time: 5,
        author: a.author(),
    };
    let mut other_time = base.clone();
    other_time.time = 6;
    let mut other_payload = base.clone();
    other_payload.payload = vec![Transaction::Remove(key)];
    assert_eq!(base.hash(), base.clone().hash());
    assert_ne!(base.hash(), other_time.hash());
    assert_ne!(base.hash(), other_payload.hash());
    let mut preimage = vec![0u8; 64];
    preimage.extend_from_slice(&a.author().to_bytes());
    preimage.extend_from_slice(&5u128.to_be_bytes());
    preimage.extend_from_slice(&base.payload[0].encode());
    assert_eq!(base.hash(), hashgraph::hash::Hasher::digest(&preimage));
}

#[test]
fn ancestors_and_descendants() {
    let a = Identity::generate();
    let b = Identity::generate();
    let c = Identity::generate();
    let mut g = Graph::new();
    let ha = g.add_event(raw_event(&a, None, None)).unwrap();
    let hb = g.add_event(raw_event(&b, None, Some(ha))).unwrap();
    let hc = g.add_event(raw_event(&c, None, None)).unwrap();
    let hb2 = g.add_event(raw_event(&b, Some(hb), Some(hc))).unwrap();
    let eb2 = g.event(&hb2).unwrap();
    let ea = g.event(&ha).unwrap();
    let ec = g.event(&hc).unwrap();
    let up: Vec<hashgraph::hash::Hash> = g.ancestors(eb2).iter().map(|e| *e.hash()).collect();
    assert_eq!(up, vec![hb2, hc, hb, ha]);
    let down: Vec<hashgraph::hash::Hash> = g.decendants(ea).iter().map(|e| *e.hash()).collect();
    assert_eq!(down, vec![hb2, hb, ha]);
    let chain: Vec<hashgraph::hash::Hash> = g.self_ancestors(eb2).iter().map(|e| *e.hash()).collect();
    assert_eq!(chain, vec![hb2, hb]);
    assert!(g.ancestor(eb2, ea));
    assert!(!g.ancestor(ea, eb2));
    assert!(!g.ancestor(ec, ea));
    assert!(g.self_ancestor(eb2, g.event(&hb).unwrap()));
    assert!(!g.self_ancestor(eb2, ea));
    assert!(g.see(&hb2, &ha));
    assert!(!g.see(&hc, &ha));
}

#[test]
fn see_fails_on_fork() {
    let a = Identity::generate();
    let b = Identity::generate();
    let mut g = Graph::new();
    let a1 = g.add_event(raw_event(&a, None, None)).unwrap();
    let fork1 = UnsignedRawEvent {
        payload: vec![],
        self_hash: Some(a1),
        other_hash: None,
        time: 1,
        author: a.author(),
    }
    .sign(&a)
    .1;
    let fork2 = UnsignedRawEvent {
        payload: vec![],
        self_hash: Some(a1),
        other_hash: None,
        time: 2,
        author: a.author(),
    }
    .sign(&a)
    .1;
    let f1 = g.add_event(fork1).unwrap();
    let f2 = g.add_event(fork2).unwrap();
    let b1 = g.add_event(raw_event(&b, None, Some(f1))).unwrap();
    assert!(g.see(&b1, &a1));
    let b2 = g.add_event(raw_event(&b, Some(b1), Some(f2))).unwrap();
    assert!(g.ancestor(g.event(&b2).unwrap(), g.event(&a1).unwrap()));
    assert!(!g.see(&b2, &a1));
    assert!(!g.see(&b2, &f1));
}

#[test]
fn strongly_see_needs_two_thirds() {
    let a = Identity::generate();
    let b = Identity::generate();
    let c = Identity::generate();
    let authors = [a.author(), b.author(), c.author()];
    let mut g = Graph::new();
    let ha1 = g.add_event(raw_event(&a, None, None)).unwrap();
    // only a bridges a1 and a1: 1 of 3 is less than 3 - 3 / 3 = 2
    assert!(!g.strongly_see(&ha1, &ha1, &authors));
    let hb1 = g.add_event(raw_event(&b, None, Some(ha1))).unwrap();
    // still only a has an ancestor of a1 among the descendants of a1
    assert!(!g.strongly_see(&ha1, &ha1, &authors));
    // a and b bridge b1 and a1
    assert!(g.strongly_see(&hb1, &ha1, &authors));
    // nobody bridges a1 and b1: a1 has no ancestor among the descendants of b1
    assert!(!g.strongly_see(&ha1, &hb1, &authors));
    let ha2 = g.add_event(raw_event(&a, Some(ha1), Some(hb1))).unwrap();
    assert!(g.strongly_see(&ha2, &ha1, &authors));
    // with no authors the count 0 reaches 0 - 0 / 3
    assert!(g.strongly_see(&hb1, &ha2, &[]));
}

#[test]
fn sync_state_and_sync_order() {
    let a = Identity::generate();
    let b = Identity::generate();
    let c = Identity::generate();
    let mut g = Graph::new();
    let ha1 = g.add_event(raw_event(&a, None, None)).unwrap();
    let hb1 = g.add_event(raw_event(&b, None, Some(ha1))).unwrap();
    let ha2 = g.add_event(raw_event(&a, Some(ha1), Some(hb1))).unwrap();
    let hb2 = g.add_event(raw_event(&b, Some(hb1), Some(ha2))).unwrap();
    assert_eq!(
        g.sync_state(&[a.author(), b.author(), c.author()]),
        vec![Some(2), Some(2), None]
    );
    let hashes = |events: Vec<&RawEvent>| -> Vec<hashgraph::hash::Hash> {
        events.iter().map(|r| r.event.hash()).collect()
    };
    // a peer that knows nothing gets everything, parents before children
    assert_eq!(hashes(g.sync(&[])), vec![ha1, hb1, ha2, hb2]);
    // a peer that holds a's first event lacks the rest
    assert_eq!(hashes(g.sync(&[(a.author(), 1)])), vec![hb1, ha2, hb2]);
    // a peer that holds everything gets nothing
    assert_eq!(hashes(g.sync(&[(a.author(), 2), (b.author(), 2)])), Vec::<hashgraph::hash::Hash>::new());
    // the empty graph has nothing to send
    assert!(Graph::new().sync(&[]).is_empty());
    assert_eq!(Graph::default().len(), 0);
    assert_eq!(Graph::default().root(), None);
}
