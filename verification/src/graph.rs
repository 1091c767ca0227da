//! The gossip graph: every known event, in the order of its arrival, with
//! the relations that the voter asks of it.
use crate::author::Author;
use crate::crypto::{digest, signature_verifies};
use crate::dag::{
    either, no_marks,
    ancestor, ancestor_marks, bridge_count, bridged_by, bridges, children_of, closed_marks, dag_wf,
    holds_parents, lemma_close_at,
    descendant_marks, is_parent, last_seq, lemma_ancestor_bounds, lemma_ancestor_parent,
    lemma_children_grow, lemma_children_later, lemma_closed_marks, lemma_dag_push,
    lemma_self_ancestor,
    lemma_walk_grows, marked, parent_before, peer_knows, peer_seq, sees, self_ancestor,
    self_chain, strongly_sees, walk, Node, Walk,
};
use crate::error::Error;
use crate::event::{derived_kept, parent_hashes, preimage, vote_in, Event, RawEvent};
use crate::hash::lemma_hash_ext;
use vstd::prelude::*;

verus! {

/// Whether the position `p` is that of the event with digest `h`, both
/// absent or both present.
pub open spec fn link_matches(s: Seq<Node>, h: Option<crate::hash::Hash>, p: Option<usize>) -> bool {
    match (h, p) {
        (None, None) => true,
        (Some(h), Some(p)) => p < s.len() && s[p as int].hash == h,
        _ => false,
    }
}

/// Whether the graph `s` holds an event with digest `h`.
pub open spec fn holds(s: Seq<Node>, h: crate::hash::Hash) -> bool {
    exists|i: int| 0 <= i < s.len() && (#[trigger] s[i]).hash == h
}

/// Whether the graph `s` holds an event whose digest has the bytes `d`.
pub open spec fn knows(s: Seq<Node>, d: Seq<u8>) -> bool {
    exists|i: int| 0 <= i < s.len() && (#[trigger] s[i]).hash@ == d
}

/// The position of the event with digest `h`.
pub open spec fn position(s: Seq<Node>, h: crate::hash::Hash) -> int {
    choose|i: int| 0 <= i < s.len() && (#[trigger] s[i]).hash == h
}

/// Whether the event `e` at position `i` agrees with its node, names as
/// parents the events that its node links to, lists its children, has the
/// digest of its content, and is signed by its author.
pub open spec fn event_ok(s: Seq<Node>, e: Event, i: int) -> bool {
    let n = s[i];
    &&& e.hash == n.hash
    &&& e.raw.event.author == n.author
    &&& e.seq == n.seq
    &&& link_matches(s, e.raw.event.self_hash, n.self_parent)
    &&& link_matches(s, e.raw.event.other_hash, n.other_parent)
    &&& e.parents@ == parent_hashes(e.raw.event.self_hash, e.raw.event.other_hash)
    &&& e.children@ == children_of(s, i, s.len() as int)
    &&& e.hash@ == digest(preimage(e.raw.event@))
    &&& signature_verifies(n.author@, e.hash@, e.raw.signature@)
}

/// The children that the event at `i` gains when `node` arrives.
pub open spec fn new_children(node: Node, i: int) -> Seq<crate::hash::Hash> {
    if (node.self_parent matches Some(q) && q == i) || (node.other_parent matches Some(q) && q
        == i) {
        seq![node.hash]
    } else {
        Seq::empty()
    }
}

/// An event stays in order when a later event arrives, given the children
/// that it gains by it.
pub proof fn lemma_event_kept(s: Seq<Node>, node: Node, e: Event, f: Event, i: int)
    requires
        0 <= i < s.len(),
        event_ok(s, e, i),
        same_but_children(f, e),
        f.children@ == e.children@ + new_children(node, i),
    ensures
        event_ok(s.push(node), f, i),
{
    let t = s.push(node);
    assert(t[i] == s[i]);
    lemma_children_grow(s, t, i, s.len() as int);
    assert(children_of(t, i, t.len() as int) =~= children_of(s, i, s.len() as int) + new_children(
        node,
        i,
    ));
    if let Some(p) = s[i].self_parent {
        assert(t[p as int] == s[p as int]);
    }
    if let Some(p) = s[i].other_parent {
        assert(t[p as int] == s[p as int]);
    }
}

/// An event that arrives is in order at the end of the graph.
pub proof fn lemma_event_new(s: Seq<Node>, node: Node, e: Event)
    requires
        dag_wf(s.push(node)),
        e.hash == node.hash,
        e.raw.event.author == node.author,
        e.seq == node.seq,
        link_matches(s, e.raw.event.self_hash, node.self_parent),
        link_matches(s, e.raw.event.other_hash, node.other_parent),
        e.parents@ == parent_hashes(e.raw.event.self_hash, e.raw.event.other_hash),
        e.children@ == Seq::<crate::hash::Hash>::empty(),
        e.hash@ == digest(preimage(e.raw.event@)),
        signature_verifies(node.author@, e.hash@, e.raw.signature@),
    ensures
        event_ok(s.push(node), e, s.len() as int),
{
    let t = s.push(node);
    let n = s.len() as int;
    lemma_children_later(t, n, n + 1);
    if let Some(p) = node.self_parent {
        assert(t[p as int] == s[p as int]);
    }
    if let Some(p) = node.other_parent {
        assert(t[p as int] == s[p as int]);
    }
}

/// The gossip graph.
#[derive(Debug)]
pub struct Graph {
    nodes: Vec<Node>,
    events: Vec<Event>,
}

impl Default for Graph {
    fn default() -> (graph: Graph)
        ensures
            graph.wf(),
            graph.nodes().len() == 0,
    {
        Graph::new()
    }
}

impl Graph {
    /// The shape of the graph: one node for each event, in the order of
    /// arrival.
    pub closed spec fn nodes(&self) -> Seq<Node> {
        self.nodes@
    }

    /// The events of the graph, in the order of arrival.
    pub closed spec fn events(&self) -> Seq<Event> {
        self.events@
    }

    /// The invariant of the graph: its shape is a well-formed graph, and
    /// each event is in order at its position.
    pub closed spec fn wf(&self) -> bool {
        &&& dag_wf(self.nodes())
        &&& self.events().len() == self.nodes().len()
        &&& forall|i: int|
            0 <= i < self.nodes().len() ==> event_ok(self.nodes(), #[trigger] self.events()[i], i)
    }

    /// Whether the graph takes the event: each parent that it names is
    /// known, and its author's signature on its digest verifies. An event
    /// that is not yet known also needs room in the graph.
    pub open spec fn admits(&self, event: RawEvent) -> bool {
        let d = digest(preimage(event.event@));
        &&& event.event.self_hash matches Some(h) ==> holds(self.nodes(), h)
        &&& event.event.other_hash matches Some(h) ==> holds(self.nodes(), h)
        &&& signature_verifies(event.event.author@, d, event.signature@)
        &&& knows(self.nodes(), d) || self.nodes().len() < usize::MAX
    }

    /// Whether the graph takes the event as a new one: it takes it, and
    /// knows no event with its digest.
    pub open spec fn accepts(&self, event: RawEvent) -> bool {
        self.admits(event) && !knows(self.nodes(), digest(preimage(event.event@)))
    }

    /// The empty graph.
    pub fn new() -> (graph: Graph)
        ensures
            graph.wf(),
            graph.nodes().len() == 0,
    {
        Graph { nodes: Vec::new(), events: Vec::new() }
    }

    /// The number of events.
    pub fn len(&self) -> (n: usize)
        ensures
            n == self.nodes().len(),
            self.wf() ==> n == self.events().len(),
    {
        self.nodes.len()
    }

    /// The position of the event with digest `hash`.
    pub fn index_of(&self, hash: &crate::hash::Hash) -> (r: Option<usize>)
        requires
            self.wf(),
        ensures
            r is Some <==> holds(self.nodes(), *hash),
            r matches Some(i) ==> i < self.nodes().len() && self.nodes()[i as int].hash == *hash
                && i == position(self.nodes(), *hash),
    {
        let mut i: usize = 0;
        while i < self.nodes.len()
            invariant
                self.wf(),
                i <= self.nodes@.len(),
                forall|j: int| 0 <= j < i ==> (#[trigger] self.nodes@[j]).hash != *hash,
            decreases self.nodes@.len() - i,
        {
            if self.nodes[i].hash == *hash {
                proof {
                    assert(self.nodes()[i as int].hash == *hash);
                    let j = position(self.nodes(), *hash);
                    assert(self.nodes()[j].hash == self.nodes()[i as int].hash);
                }
                return Some(i);
            }
            i += 1;
        }
        None
    }

    /// The event with digest `hash`.
    pub fn event(&self, hash: &crate::hash::Hash) -> (r: Option<&Event>)
        requires
            self.wf(),
        ensures
            r is Some <==> holds(self.nodes(), *hash),
            r matches Some(e) ==> *e == self.events()[position(self.nodes(), *hash)],
    {
        match self.index_of(hash) {
            Some(i) => Some(&self.events[i]),
            None => None,
        }
    }

    /// The event at position `i`.
    pub fn event_at(&self, i: usize) -> (e: &Event)
        requires
            self.wf(),
            i < self.nodes().len(),
        ensures
            *e == self.events()[i as int],
    {
        &self.events[i]
    }

    /// The node at position `i`.
    pub fn node_at(&self, i: usize) -> (n: Node)
        requires
            i < self.nodes().len(),
        ensures
            n == self.nodes()[i as int],
    {
        self.nodes[i]
    }

    /// The digest of the event that arrived last.
    pub fn root(&self) -> (r: Option<crate::hash::Hash>)
        ensures
            r is Some <==> self.nodes().len() > 0,
            r matches Some(h) ==> h == self.nodes().last().hash,
    {
        if self.nodes.len() == 0 {
            None
        } else {
            Some(self.nodes[self.nodes.len() - 1].hash)
        }
    }

    /// Records one more child of the event at `p`.
    fn push_child(&mut self, p: usize, hash: crate::hash::Hash)
        requires
            p < old(self).events@.len(),
        ensures
            final(self).nodes@ == old(self).nodes@,
            final(self).events@.len() == old(self).events@.len(),
            same_but_children(final(self).events@[p as int], old(self).events@[p as int]),
            final(self).events@[p as int].children@ == old(self).events@[p as int].children@.push(
                hash,
            ),
            forall|i: int|
                0 <= i < old(self).events@.len() && i != p
                    ==> final(self).events@[i] == old(self).events@[i],
    {
        self.events[p].add_child(hash);
    }

    /// Puts a checked event at the end of the graph.
    fn insert(&mut self, event: RawEvent, node: Node)
        requires
            old(self).wf(),
            dag_wf(old(self).nodes().push(node)),
            node.author == event.event.author,
            link_matches(old(self).nodes(), event.event.self_hash, node.self_parent),
            link_matches(old(self).nodes(), event.event.other_hash, node.other_parent),
            node.hash@ == digest(preimage(event.event@)),
            signature_verifies(node.author@, node.hash@, event.signature@),
        ensures
            final(self).wf(),
            final(self).nodes() == old(self).nodes().push(node),
            final(self).events().len() == old(self).events().len() + 1,
            fresh_event(final(self).events().last(), event),
            forall|i: int|
                0 <= i < old(self).events().len() ==> same_but_children(
                    #[trigger] final(self).events()[i],
                    old(self).events()[i],
                ),
    {
        let ghost s = self.nodes@;
        let ghost e0 = self.events@;
        let n = self.nodes.len();
        self.nodes.push(node);
        self.events.push(Event::new(event, node.hash, node.seq));
        let ghost e1 = self.events@;
        let ghost added = e1[n as int];
        if let Some(p) = node.self_parent {
            self.push_child(p, node.hash);
        }
        let ghost e2 = self.events@;
        if let Some(p) = node.other_parent {
            let twice = match node.self_parent {
                Some(q) => q == p,
                None => false,
            };
            if !twice {
                self.push_child(p, node.hash);
            }
        }
        let ghost e3 = self.events@;
        proof {
            let t = s.push(node);
            assert(e3[n as int] == added);
            lemma_event_new(s, node, added);
            assert forall|i: int| 0 <= i < t.len() implies event_ok(t, #[trigger] e3[i], i) by {
                if i < n {
                    assert(e1[i] == e0[i]);
                    assert(event_ok(s, e0[i], i));
                    assert(same_but_children(e2[i], e1[i]));
                    assert(same_but_children(e3[i], e2[i]));
                    assert(e3[i].children@ =~= e0[i].children@ + new_children(node, i));
                    lemma_event_kept(s, node, e0[i], e3[i], i);
                }
            }
        }
    }

    /// Adds a signed event. It is refused, and the graph left as it was,
    /// where a parent that it names is unknown or where the signature is not
    /// its author's on its digest. An event that is known already is taken
    /// for what it is: its digest comes back and nothing is changed. Any
    /// other event becomes the last event of the graph, with its place in
    /// its self-parent chain, and a child of each of its parents.
    #[verifier::rlimit(40)]
    pub fn add_event(&mut self, event: RawEvent) -> (r: Result<crate::hash::Hash, Error>)
        requires
            old(self).wf(),
        ensures
            final(self).wf(),
            r is Ok <==> old(self).admits(event),
            r matches Err(e) ==> e == Error::InvalidEvent && *final(self) == *old(self),
            r matches Ok(h) ==> {
                let n = old(self).nodes().len() as int;
                &&& h@ == digest(preimage(event.event@))
                &&& holds(final(self).nodes(), h)
                &&& if knows(old(self).nodes(), h@) {
                    *final(self) == *old(self)
                } else {
                    &&& final(self).nodes().len() == n + 1
                    &&& final(self).nodes().subrange(0, n) == old(self).nodes()
                    &&& final(self).nodes()[n].hash == h
                    &&& final(self).events().len() == n + 1
                    &&& fresh_event(final(self).events()[n], event)
                    &&& forall|i: int|
                        0 <= i < n ==> same_but_children(
                            #[trigger] final(self).events()[i],
                            old(self).events()[i],
                        )
                }
            },
    {
        let n = self.nodes.len();
        let self_parent: Option<usize> = match &event.event.self_hash {
            Some(parent) => match self.index_of(parent) {
                Some(p) => Some(p),
                None => {
                    return Err(Error::InvalidEvent);
                },
            },
            None => None,
        };
        let other_parent: Option<usize> = match &event.event.other_hash {
            Some(parent) => match self.index_of(parent) {
                Some(p) => Some(p),
                None => {
                    return Err(Error::InvalidEvent);
                },
            },
            None => None,
        };
        let author = event.event.author;
        let hash = event.event.hash();
        if !author.verify(hash.bytes.as_slice(), &event.signature) {
            return Err(Error::InvalidEvent);
        }
        if self.index_of(&hash).is_some() {
            proof {
                let i = position(self.nodes(), hash);
                assert(self.nodes()[i].hash@ == hash@);
            }
            return Ok(hash);
        }
        proof {
            assert forall|i: int| 0 <= i < self.nodes().len() implies (
            #[trigger] self.nodes()[i]).hash@ != hash@ by {
                lemma_hash_ext(self.nodes()[i].hash, hash);
            }
        }
        if n == usize::MAX {
            return Err(Error::InvalidEvent);
        }
        let seq: u64 = match self_parent {
            Some(p) => {
                assert(self.nodes@[p as int].seq <= p + 1);
                self.nodes[p].seq + 1
            },
            None => 1,
        };
        let node = Node { hash, author, seq, self_parent, other_parent };
        proof {
            lemma_dag_push(self.nodes(), node);
            assert(self.nodes().push(node).subrange(0, n as int) =~= self.nodes());
        }
        self.insert(event, node);
        assert(self.nodes()[n as int].hash == hash);
        Ok(hash)
    }
}

/// Whether `e` is the event of the graph for the signed event `raw`, with
/// nothing derived yet.
pub open spec fn fresh_event(e: Event, raw: RawEvent) -> bool {
    &&& e.raw == raw
    &&& e.round_created is None
    &&& e.witness is None
    &&& e.votes@.len() == 0
    &&& e.famous is None
    &&& e.round_received is None
    &&& e.time_received is None
    &&& e.whitened_signature is None
}

/// Whether two events differ at most in their lists of children.
pub open spec fn same_but_children(a: Event, b: Event) -> bool {
    &&& a.raw == b.raw
    &&& a.hash == b.hash
    &&& a.seq == b.seq
    &&& a.parents == b.parents
    &&& a.round_created == b.round_created
    &&& a.witness == b.witness
    &&& a.votes == b.votes
    &&& a.famous == b.famous
    &&& a.round_received == b.round_received
    &&& a.time_received == b.time_received
    &&& a.whitened_signature == b.whitened_signature
}


/// The events that a list of references points to.
pub open spec fn refs_view(refs: Seq<&Event>) -> Seq<Event> {
    refs.map_values(|r: &Event| *r)
}

/// The events at the given positions.
pub open spec fn select(events: Seq<Event>, at: Seq<int>) -> Seq<Event> {
    at.map_values(|i: int| events[i])
}

/// A list of references that shows `base` and then the events at `front`
/// shows, with one more reference, one more event.
pub proof fn lemma_refs_push_after(
    base: Seq<Event>,
    before: Seq<&Event>,
    after: Seq<&Event>,
    events: Seq<Event>,
    front: Seq<int>,
    c: int,
)
    requires
        0 <= c < events.len(),
        after.len() == before.len() + 1,
        forall|i: int| 0 <= i < before.len() ==> after[i] == before[i],
        *after[before.len() as int] == events[c],
        refs_view(before) == base + select(events, front),
    ensures
        refs_view(after) == base + select(events, front.push(c)),
{
    let next = front.push(c);
    assert(refs_view(before).len() == before.len());
    assert(select(events, front).len() == front.len());
    assert forall|i: int| 0 <= i < after.len() implies refs_view(after)[i] == (base + select(
        events,
        next,
    ))[i] by {
        if i < before.len() {
            assert(refs_view(before)[i] == *before[i]);
            if i >= base.len() {
                assert(select(events, front)[i - base.len()] == events[front[i - base.len()]]);
            }
        }
    }
    assert(refs_view(after) =~= base + select(events, next));
}

/// The marks of what is reached from the known events among the first `n`
/// of those with the digests `hashes`: their ancestors where `up` is set,
/// else their descendants, themselves among them.
pub open spec fn reach_marks(s: Seq<Node>, hashes: Seq<crate::hash::Hash>, n: int, up: bool) -> Seq<
    bool,
>
    decreases n,
{
    if n <= 0 {
        no_marks(s.len())
    } else if holds(s, hashes[n - 1]) {
        either(
            reach_marks(s, hashes, n - 1, up),
            if up {
                ancestor_marks(s, position(s, hashes[n - 1]))
            } else {
                descendant_marks(s, position(s, hashes[n - 1]))
            },
        )
    } else {
        reach_marks(s, hashes, n - 1, up)
    }
}

/// Marks in `marks` what `more` marks too.
fn merge_marks(marks: &mut Vec<bool>, more: &Vec<bool>)
    requires
        old(marks)@.len() == more@.len(),
    ensures
        final(marks)@ == either(old(marks)@, more@),
{
    let n = marks.len();
    let ghost before = marks@;
    let mut j: usize = 0;
    while j < n
        invariant
            j <= n,
            marks@.len() == n,
            more@.len() == n,
            before.len() == n,
            forall|z: int|
                #![trigger marks@[z]]
                0 <= z < j ==> (marks@[z] <==> (before[z] || more@[z])),
            forall|z: int| #![trigger marks@[z]] j <= z < n ==> marks@[z] == before[z],
        decreases n - j,
    {
        if more[j] {
            marks.set(j, true);
        }
        j += 1;
    }
    assert(marks@ =~= either(before, more@));
}

/// The known events among those with the digests `hashes`, in the order of
/// the digests.
pub open spec fn known_events(s: Seq<Node>, events: Seq<Event>, hashes: Seq<crate::hash::Hash>) -> Seq<
    Event,
>
    decreases hashes.len(),
{
    if hashes.len() == 0 {
        Seq::empty()
    } else if holds(s, hashes.last()) {
        known_events(s, events, hashes.drop_last()).push(events[position(s, hashes.last())])
    } else {
        known_events(s, events, hashes.drop_last())
    }
}

impl Graph {
    /// Marks the ancestors of the event at `x`.
    pub fn mark_ancestors(&self, x: usize) -> (marks: Vec<bool>)
        requires
            self.wf(),
            x < self.nodes().len(),
        ensures
            marks@ == ancestor_marks(self.nodes(), x as int),
    {
        let n = self.nodes.len();
        let mut marks: Vec<bool> = Vec::new();
        let mut i: usize = 0;
        while i < n
            invariant
                i <= n,
                marks@.len() == i,
                forall|j: int| 0 <= j < i ==> marks@[j] == (j == x),
            decreases n - i,
        {
            marks.push(i == x);
            i += 1;
        }
        let ghost s = self.nodes();
        assert(ancestor(s, x as int, x as int));
        let mut k: usize = x + 1;
        while k > 0
            invariant
                dag_wf(s),
                s == self.nodes(),
                n == s.len(),
                x < n,
                k <= x + 1,
                marks@.len() == n,
                marks@[x as int],
                forall|j: int| 0 <= j < n && marks@[j] ==> ancestor(s, x as int, j),
                closed_marks(s, marks@, k as int, x as int),
            decreases k,
        {
            k -= 1;
            let ghost before = marks@;
            if marks[k] {
                self.mark_parents(k, x, &mut marks);
            }
            proof {
                lemma_close_at(s, before, marks@, k as int, x as int);
            }
        }
        proof {
            assert forall|j: int| 0 <= j < n implies marks@[j] == ancestor(s, x as int, j) by {
                if ancestor(s, x as int, j) {
                    lemma_closed_marks(s, marks@, x as int, x as int, j);
                }
            }
            assert(marks@ =~= ancestor_marks(s, x as int));
        }
        marks
    }

    /// Marks the parents of the event at `k`, an ancestor of the event at
    /// `x`.
    fn mark_parents(&self, k: usize, x: usize, marks: &mut Vec<bool>)
        requires
            dag_wf(self.nodes()),
            k < self.nodes().len(),
            old(marks)@.len() == self.nodes().len(),
            old(marks)@[k as int],
            ancestor(self.nodes(), x as int, k as int),
            forall|j: int|
                0 <= j < old(marks)@.len() && old(marks)@[j]
                    ==> ancestor(self.nodes(), x as int, j),
        ensures
            final(marks)@.len() == old(marks)@.len(),
            forall|j: int| 0 <= j < old(marks)@.len() && old(marks)@[j] ==> final(marks)@[j],
            forall|j: int| k <= j < old(marks)@.len() ==> final(marks)@[j] == old(marks)@[j],
            holds_parents(self.nodes(), final(marks)@, k as int),
            forall|j: int|
                0 <= j < final(marks)@.len() && final(marks)@[j] ==> ancestor(
                    self.nodes(),
                    x as int,
                    j,
                ),
    {
        let ghost s = self.nodes();
        let node = self.nodes[k];
        proof {
            assert(parent_before(s[k as int].self_parent, k as int));
            assert(parent_before(s[k as int].other_parent, k as int));
        }
        if let Some(p) = node.self_parent {
            proof {
                assert(is_parent(s, k as int, p as int));
                lemma_ancestor_parent(s, x as int, k as int, p as int);
            }
            marks.set(p, true);
        }
        if let Some(p) = node.other_parent {
            proof {
                assert(is_parent(s, k as int, p as int));
                lemma_ancestor_parent(s, x as int, k as int, p as int);
            }
            marks.set(p, true);
        }
    }

    /// Marks the descendants of the event at `y`.
    pub fn mark_descendants(&self, y: usize) -> (marks: Vec<bool>)
        requires
            self.wf(),
            y < self.nodes().len(),
        ensures
            marks@ == descendant_marks(self.nodes(), y as int),
    {
        let n = self.nodes.len();
        let ghost s = self.nodes();
        let mut marks: Vec<bool> = Vec::new();
        let mut i: usize = 0;
        while i < n
            invariant
                dag_wf(s),
                s == self.nodes(),
                n == s.len(),
                y < n,
                i <= n,
                marks@.len() == i,
                forall|j: int| 0 <= j < i ==> marks@[j] == ancestor(s, j, y as int),
            decreases n - i,
        {
            let node = self.nodes[i];
            proof {
                assert(parent_before(s[i as int].self_parent, i as int));
                assert(parent_before(s[i as int].other_parent, i as int));
                if ancestor(s, i as int, y as int) {
                    lemma_ancestor_bounds(s, i as int, y as int);
                }
            }
            let via_self = match node.self_parent {
                Some(p) => marks[p],
                None => false,
            };
            let via_other = match node.other_parent {
                Some(p) => marks[p],
                None => false,
            };
            marks.push(i == y || via_self || via_other);
            i += 1;
        }
        assert(marks@ =~= descendant_marks(s, y as int));
        marks
    }

    /// Whether the event at `y` is a self-ancestor of the event at `x`.
    pub fn is_self_ancestor(&self, x: usize, y: usize) -> (r: bool)
        requires
            self.wf(),
            x < self.nodes().len(),
        ensures
            r == self_ancestor(self.nodes(), x as int, y as int),
    {
        let ghost s = self.nodes();
        let mut cur: usize = x;
        loop
            invariant
                dag_wf(s),
                s == self.nodes(),
                cur < s.len(),
                self_ancestor(s, x as int, y as int) == self_ancestor(s, cur as int, y as int),
            decreases cur,
        {
            if cur == y {
                return true;
            }
            assert(parent_before(s[cur as int].self_parent, cur as int));
            match self.nodes[cur].self_parent {
                Some(p) => {
                    cur = p;
                },
                None => {
                    return false;
                },
            }
        }
    }

    /// The events that `marks` marks, the latest first.
    fn collect<'a>(&'a self, first: Vec<&'a Event>, marks: &Vec<bool>) -> (out: Vec<&'a Event>)
        requires
            self.wf(),
            marks@.len() == self.nodes().len(),
        ensures
            refs_view(out@) == refs_view(first@) + select(
                self.events(),
                marked(marks@, marks@.len() as int),
            ),
    {
        let ghost base = refs_view(first@);
        let mut out: Vec<&Event> = first;
        let mut k: usize = marks.len();
        let ghost n = marks@.len() as int;
        let ghost mut front: Seq<int> = Seq::empty();
        proof {
            assert(marked(marks@, n) =~= front + marked(marks@, n));
            assert(refs_view(out@) =~= base + select(self.events(), front));
        }
        while k > 0
            invariant
                self.events().len() == self.nodes().len(),
                n == marks@.len(),
                n == self.nodes().len(),
                k <= n,
                refs_view(out@) == base + select(self.events(), front),
                marked(marks@, n) == front + marked(marks@, k as int),
            decreases k,
        {
            k -= 1;
            if marks[k] {
                let ghost before = out@;
                out.push(&self.events[k]);
                proof {
                    let next = front.push(k as int);
                    lemma_refs_push_after(base, before, out@, self.events(), front, k as int);
                    assert(marked(marks@, n) =~= next + marked(marks@, k as int));
                    front = next;
                }
            } else {
                assert(marked(marks@, n) =~= front + marked(marks@, k as int));
            }
        }
        proof {
            assert(front + marked(marks@, 0) =~= front);
        }
        out
    }

    /// The known events among those with the digests `hashes`.
    fn lookup_all(&self, hashes: &[crate::hash::Hash]) -> (out: Vec<&Event>)
        requires
            self.wf(),
        ensures
            refs_view(out@) == known_events(self.nodes(), self.events(), hashes@),
    {
        let mut out: Vec<&Event> = Vec::new();
        let mut i: usize = 0;
        assert(hashes@.subrange(0, 0) =~= Seq::<crate::hash::Hash>::empty());
        assert(refs_view(out@) =~= Seq::<Event>::empty());
        while i < hashes.len()
            invariant
                self.wf(),
                i <= hashes@.len(),
                refs_view(out@) == known_events(
                    self.nodes(),
                    self.events(),
                    hashes@.subrange(0, i as int),
                ),
            decreases hashes@.len() - i,
        {
            let ghost before = refs_view(out@);
            let ghost next = hashes@.subrange(0, i + 1);
            assert(next.drop_last() =~= hashes@.subrange(0, i as int));
            assert(next.last() == hashes@[i as int]);
            match self.index_of(&hashes[i]) {
                Some(p) => {
                    out.push(&self.events[p]);
                    assert(refs_view(out@) =~= before.push(self.events()[p as int]));
                },
                None => {},
            }
            i += 1;
        }
        assert(hashes@.subrange(0, i as int) =~= hashes@);
        out
    }

    /// The known parents of an event, the self-parent first.
    pub fn parents(&self, event: &Event) -> (out: Vec<&Event>)
        requires
            self.wf(),
        ensures
            refs_view(out@) == known_events(self.nodes(), self.events(), event.parents@),
    {
        self.lookup_all(event.parents.as_slice())
    }

    /// The self-parent of an event, where it names one that is known.
    pub fn self_parent(&self, event: &Event) -> (out: Option<&Event>)
        requires
            self.wf(),
        ensures
            out is Some <==> (event.raw.event.self_hash matches Some(h) && holds(self.nodes(), h)),
            out matches Some(e) ==> *e == self.events()[position(
                self.nodes(),
                event.raw.event.self_hash.unwrap(),
            )],
    {
        match &event.raw.event.self_hash {
            Some(h) => self.event(h),
            None => None,
        }
    }

    /// The known children of an event, in the order of their arrival.
    pub fn children(&self, event: &Event) -> (out: Vec<&Event>)
        requires
            self.wf(),
        ensures
            refs_view(out@) == known_events(self.nodes(), self.events(), event.children@),
    {
        self.lookup_all(event.children.as_slice())
    }

    /// Marks what is reached from the known events among those with the
    /// digests `hashes`: their ancestors where `up` is set, else their
    /// descendants.
    fn mark_reach(&self, hashes: &Vec<crate::hash::Hash>, up: bool) -> (marks: Vec<bool>)
        requires
            self.wf(),
        ensures
            marks@ == reach_marks(self.nodes(), hashes@, hashes@.len() as int, up),
            marks@.len() == self.nodes().len(),
    {
        let n = self.nodes.len();
        let ghost s = self.nodes();
        let mut marks: Vec<bool> = Vec::new();
        let mut i: usize = 0;
        while i < n
            invariant
                i <= n,
                marks@.len() == i,
                forall|j: int| 0 <= j < i ==> !marks@[j],
            decreases n - i,
        {
            marks.push(false);
            i += 1;
        }
        assert(marks@ =~= no_marks(s.len()));
        let mut k: usize = 0;
        while k < hashes.len()
            invariant
                self.wf(),
                s == self.nodes(),
                n == s.len(),
                k <= hashes@.len(),
                marks@.len() == n,
                marks@ == reach_marks(s, hashes@, k as int, up),
            decreases hashes@.len() - k,
        {
            match self.index_of(&hashes[k]) {
                Some(x) => {
                    let more = if up {
                        self.mark_ancestors(x)
                    } else {
                        self.mark_descendants(x)
                    };
                    merge_marks(&mut marks, &more);
                },
                None => {},
            }
            k += 1;
        }
        marks
    }

    /// The ancestors of an event, itself first, then the others, the latest
    /// first. Of an event that the graph does not hold, they are the event
    /// and the ancestors of those of its parents that the graph holds.
    pub fn ancestors<'a>(&'a self, event: &'a Event) -> (out: Vec<&'a Event>)
        requires
            self.wf(),
        ensures
            holds(self.nodes(), event.hash) ==> refs_view(out@) == select(
                self.events(),
                marked(
                    ancestor_marks(self.nodes(), position(self.nodes(), event.hash)),
                    self.nodes().len() as int,
                ),
            ),
            !holds(self.nodes(), event.hash) ==> refs_view(out@) == seq![*event] + select(
                self.events(),
                marked(
                    reach_marks(self.nodes(), event.parents@, event.parents@.len() as int, true),
                    self.nodes().len() as int,
                ),
            ),
    {
        let mut first: Vec<&Event> = Vec::new();
        match self.index_of(&event.hash) {
            Some(x) => {
                let marks = self.mark_ancestors(x);
                assert(refs_view(first@) =~= Seq::<Event>::empty());
                let out = self.collect(first, &marks);
                assert(Seq::<Event>::empty() + select(
                    self.events(),
                    marked(marks@, marks@.len() as int),
                ) =~= select(self.events(), marked(marks@, marks@.len() as int)));
                out
            },
            None => {
                let marks = self.mark_reach(&event.parents, true);
                first.push(event);
                assert(refs_view(first@) =~= seq![*event]);
                self.collect(first, &marks)
            },
        }
    }

    /// The descendants of an event, the latest first and itself last. Of an
    /// event that the graph does not hold, they are the descendants of
    /// those of the children that it lists that the graph holds, and the
    /// event, last.
    pub fn decendants<'a>(&'a self, event: &'a Event) -> (out: Vec<&'a Event>)
        requires
            self.wf(),
        ensures
            holds(self.nodes(), event.hash) ==> refs_view(out@) == select(
                self.events(),
                marked(
                    descendant_marks(self.nodes(), position(self.nodes(), event.hash)),
                    self.nodes().len() as int,
                ),
            ),
            !holds(self.nodes(), event.hash) ==> refs_view(out@) == select(
                self.events(),
                marked(
                    reach_marks(self.nodes(), event.children@, event.children@.len() as int, false),
                    self.nodes().len() as int,
                ),
            ) + seq![*event],
    {
        let mut first: Vec<&Event> = Vec::new();
        match self.index_of(&event.hash) {
            Some(y) => {
                let marks = self.mark_descendants(y);
                assert(refs_view(first@) =~= Seq::<Event>::empty());
                let out = self.collect(first, &marks);
                assert(Seq::<Event>::empty() + select(
                    self.events(),
                    marked(marks@, marks@.len() as int),
                ) =~= select(self.events(), marked(marks@, marks@.len() as int)));
                out
            },
            None => {
                let marks = self.mark_reach(&event.children, false);
                assert(refs_view(first@) =~= Seq::<Event>::empty());
                let mut out = self.collect(first, &marks);
                let ghost before = out@;
                out.push(event);
                proof {
                    let found = select(self.events(), marked(marks@, marks@.len() as int));
                    assert(Seq::<Event>::empty() + found =~= found);
                    assert(refs_view(out@) =~= refs_view(before) + seq![*event]);
                }
                out
            },
        }
    }

    /// The self-ancestors of an event, itself first, then its self-parent,
    /// and so on. Of an event that the graph does not hold, they are the
    /// event and, where the graph holds its self-parent, the self-ancestors
    /// of that.
    #[verifier::rlimit(40)]
    pub fn self_ancestors<'a>(&'a self, event: &'a Event) -> (out: Vec<&'a Event>)
        requires
            self.wf(),
        ensures
            holds(self.nodes(), event.hash) ==> refs_view(out@) == select(
                self.events(),
                self_chain(self.nodes(), position(self.nodes(), event.hash)),
            ),
            !holds(self.nodes(), event.hash) ==> refs_view(out@) == seq![*event] + (match event.raw.event.self_hash {
                Some(h) => if holds(self.nodes(), h) {
                    select(self.events(), self_chain(self.nodes(), position(self.nodes(), h)))
                } else {
                    Seq::<Event>::empty()
                },
                None => Seq::<Event>::empty(),
            }),
    {
        let mut out: Vec<&Event> = Vec::new();
        let ghost s = self.nodes();
        let start = match self.index_of(&event.hash) {
            Some(x) => Some(x),
            None => {
                out.push(event);
                match &event.raw.event.self_hash {
                    Some(h) => self.index_of(h),
                    None => None,
                }
            },
        };
        let ghost base = refs_view(out@);
        proof {
            assert(holds(s, event.hash) ==> base =~= Seq::<Event>::empty());
            assert(!holds(s, event.hash) ==> base =~= seq![*event]);
        }
        if start.is_none() {
            assert(base + Seq::<Event>::empty() =~= base);
            return out;
        }
        let ghost x = start.unwrap() as int;
        let mut cur: Option<usize> = start;
        let ghost mut front: Seq<int> = Seq::empty();
        proof {
            assert(refs_view(out@) =~= base + select(self.events(), front));
            assert(self_chain(s, x) =~= front + self_chain(s, x));
        }
        while cur.is_some()
            invariant
                dag_wf(s),
                self.events().len() == s.len(),
                s == self.nodes(),
                0 <= x < s.len(),
                cur matches Some(c) ==> c < s.len(),
                refs_view(out@) == base + select(self.events(), front),
                self_chain(s, x) == front + (match cur {
                    Some(c) => self_chain(s, c as int),
                    None => Seq::<int>::empty(),
                }),
            decreases
                    (match cur {
                        Some(c) => c + 1,
                        None => 0,
                    }),
        {
            let c = cur.unwrap();
            let ghost before = out@;
            out.push(&self.events[c]);
            proof {
                let next = front.push(c as int);
                lemma_refs_push_after(base, before, out@, self.events(), front, c as int);
                assert(parent_before(s[c as int].self_parent, c as int));
                assert(self_chain(s, x) =~= next + (match s[c as int].self_parent {
                    Some(p) => self_chain(s, p as int),
                    None => Seq::<int>::empty(),
                }));
                front = next;
            }
            cur = self.nodes[c].self_parent;
        }
        proof {
            assert(front + Seq::<int>::empty() =~= front);
            assert(Seq::<Event>::empty() + select(self.events(), front) =~= select(
                self.events(),
                front,
            ));
        }
        out
    }

    /// Whether `y` is an ancestor of `x`: whether `y` is reached from `x` by
    /// following parent links zero or more times. From an event that the
    /// graph does not hold, the event itself is reached, and what is
    /// reached from those of its parents that the graph holds.
    pub fn ancestor(&self, x: &Event, y: &Event) -> (r: bool)
        requires
            self.wf(),
        ensures
            holds(self.nodes(), x.hash) ==> r == (holds(self.nodes(), y.hash) && ancestor(
                self.nodes(),
                position(self.nodes(), x.hash),
                position(self.nodes(), y.hash),
            )),
            !holds(self.nodes(), x.hash) ==> r == (y.hash == x.hash || (holds(self.nodes(), y.hash)
                && reach_marks(self.nodes(), x.parents@, x.parents@.len() as int, true)[position(
                self.nodes(),
                y.hash,
            )])),
    {
        match self.index_of(&x.hash) {
            Some(i) => match self.index_of(&y.hash) {
                Some(j) => {
                    let marks = self.mark_ancestors(i);
                    marks[j]
                },
                None => false,
            },
            None => {
                if y.hash == x.hash {
                    true
                } else {
                    match self.index_of(&y.hash) {
                        Some(j) => {
                            let marks = self.mark_reach(&x.parents, true);
                            marks[j]
                        },
                        None => false,
                    }
                }
            },
        }
    }

    /// Whether `y` is a self-ancestor of `x`: whether `y` is reached from
    /// `x` by following self-parent links zero or more times. From an event
    /// that the graph does not hold, the event itself is reached, and what
    /// is reached from its self-parent where the graph holds that.
    pub fn self_ancestor(&self, x: &Event, y: &Event) -> (r: bool)
        requires
            self.wf(),
        ensures
            holds(self.nodes(), x.hash) ==> r == (holds(self.nodes(), y.hash) && self_ancestor(
                self.nodes(),
                position(self.nodes(), x.hash),
                position(self.nodes(), y.hash),
            )),
            !holds(self.nodes(), x.hash) ==> r == (y.hash == x.hash || (match x.raw.event.self_hash {
                Some(h) => holds(self.nodes(), h) && holds(self.nodes(), y.hash) && self_ancestor(
                    self.nodes(),
                    position(self.nodes(), h),
                    position(self.nodes(), y.hash),
                ),
                None => false,
            })),
    {
        match self.index_of(&x.hash) {
            Some(i) => match self.index_of(&y.hash) {
                Some(j) => self.is_self_ancestor(i, j),
                None => false,
            },
            None => {
                if y.hash == x.hash {
                    return true;
                }
                let from = match &x.raw.event.self_hash {
                    Some(h) => self.index_of(h),
                    None => None,
                };
                match (from, self.index_of(&y.hash)) {
                    (Some(i), Some(j)) => self.is_self_ancestor(i, j),
                    _ => false,
                }
            },
        }
    }
}


/// The raw events that a list of references points to.
pub open spec fn raw_refs_view(refs: Seq<&RawEvent>) -> Seq<RawEvent> {
    refs.map_values(|r: &RawEvent| *r)
}

/// The raw events at the given positions.
pub open spec fn select_raw(events: Seq<Event>, at: Seq<usize>) -> Seq<RawEvent> {
    at.map_values(|i: usize| events[i as int].raw)
}

/// A walk that has done with nothing and emitted nothing.
pub open spec fn fresh_walk(n: nat) -> Walk {
    Walk { black: Seq::new(n, |j: int| false), out: Seq::empty() }
}

impl Graph {
    /// Whether the event with digest `x` sees the one with digest `y`: `y`
    /// is an ancestor of `x`, and `x` has no two ancestors by the author of
    /// `y` that lie on different self-parent chains.
    pub fn see(&self, x: &crate::hash::Hash, y: &crate::hash::Hash) -> (r: bool)
        requires
            self.wf(),
            holds(self.nodes(), *x),
            holds(self.nodes(), *y),
        ensures
            r == sees(self.nodes(), position(self.nodes(), *x), position(self.nodes(), *y)),
    {
        let x = self.index_of(x).unwrap();
        let y = self.index_of(y).unwrap();
        self.see_at(x, y)
    }

    /// Whether the event at `x` sees the event at `y`.
    pub fn see_at(&self, x: usize, y: usize) -> (r: bool)
        requires
            self.wf(),
            x < self.nodes().len(),
            y < self.nodes().len(),
        ensures
            r == sees(self.nodes(), x as int, y as int),
    {
        let ghost s = self.nodes();
        let n = self.nodes.len();
        let marks = self.mark_ancestors(x);
        if !marks[y] {
            return false;
        }
        let author = self.nodes[y].author;
        let mut b: usize = 0;
        while b <= x
            invariant
                self.wf(),
                s == self.nodes(),
                n == s.len(),
                x < s.len(),
                y < s.len(),
                b <= x + 1,
                marks@ == ancestor_marks(s, x as int),
                author == s[y as int].author,
                forall|a2: int, b2: int|
                    #![trigger ancestor(s, x as int, a2), ancestor(s, x as int, b2)]
                    0 <= a2 < b2 < b && ancestor(s, x as int, a2) && ancestor(s, x as int, b2)
                        && s[a2].author == author && s[b2].author == author ==> self_ancestor(
                        s,
                        b2,
                        a2,
                    ),
            decreases x + 1 - b,
        {
            if marks[b] && self.nodes[b].author == author {
                let mut a: usize = 0;
                while a < b
                    invariant
                        self.wf(),
                        s == self.nodes(),
                        x < s.len(),
                        y < s.len(),
                        b <= x,
                        a <= b,
                        marks@ == ancestor_marks(s, x as int),
                        author == s[y as int].author,
                        ancestor(s, x as int, b as int),
                        s[b as int].author == author,
                        forall|a2: int|
                            #![trigger ancestor(s, x as int, a2)]
                            0 <= a2 < a && ancestor(s, x as int, a2) && s[a2].author == author
                                ==> self_ancestor(s, b as int, a2),
                    decreases b - a,
                {
                    if marks[a] && self.nodes[a].author == author {
                        if !self.is_self_ancestor(b, a) {
                            proof {
                                assert(ancestor(s, x as int, a as int));
                                assert(ancestor(s, x as int, b as int));
                                if self_ancestor(s, a as int, b as int) {
                                    lemma_self_ancestor(s, a as int, b as int);
                                }
                            }
                            return false;
                        }
                    }
                    a += 1;
                }
            }
            b += 1;
        }
        proof {
            assert forall|a2: int, b2: int|
                #![trigger ancestor(s, x as int, a2), ancestor(s, x as int, b2)]
                ancestor(s, x as int, a2) && ancestor(s, x as int, b2) && s[a2].author
                    == s[y as int].author && s[b2].author == s[y as int].author
                    implies self_ancestor(s, a2, b2) || self_ancestor(s, b2, a2) by {
                lemma_ancestor_bounds(s, x as int, a2);
                lemma_ancestor_bounds(s, x as int, b2);
                assert(0 <= a2 < s.len() && 0 <= b2 < s.len());
                if a2 < b2 {
                    assert(self_ancestor(s, b2, a2));
                } else if b2 < a2 {
                    assert(ancestor(s, x as int, b2) && ancestor(s, x as int, a2));
                    assert(self_ancestor(s, a2, b2));
                }
            }
        }
        true
    }

    /// Among the events that `marks` marks, one by `author` with the least
    /// (`least`) or the greatest sequence number.
    fn extreme_seq(&self, marks: &Vec<bool>, author: &Author, least: bool) -> (r: Option<usize>)
        requires
            marks@.len() == self.nodes().len(),
        ensures
            is_extreme(self.nodes(), marks@, *author, least, r),
    {
        let mut best: Option<usize> = None;
        let mut j: usize = 0;
        while j < marks.len()
            invariant
                marks@.len() == self.nodes().len(),
                j <= marks@.len(),
                best is None ==> forall|k: int|
                    0 <= k < j ==> !(marks@[k] && (#[trigger] self.nodes()[k]).author == *author),
                best matches Some(i) ==> {
                    &&& i < j
                    &&& marks@[i as int]
                    &&& self.nodes()[i as int].author == *author
                    &&& forall|k: int|
                        0 <= k < j && marks@[k] && (#[trigger] self.nodes()[k]).author == *author
                            ==> (if least {
                            self.nodes()[i as int].seq <= self.nodes()[k].seq
                        } else {
                            self.nodes()[i as int].seq >= self.nodes()[k].seq
                        })
                },
            decreases marks@.len() - j,
        {
            if marks[j] && self.nodes[j].author == *author {
                match best {
                    None => {
                        best = Some(j);
                    },
                    Some(i) => {
                        let better = if least {
                            self.nodes[j].seq < self.nodes[i].seq
                        } else {
                            self.nodes[j].seq > self.nodes[i].seq
                        };
                        if better {
                            best = Some(j);
                        }
                    },
                }
            }
            j += 1;
        }
        best
    }

    /// Whether the event with digest `x` strongly sees the one with digest
    /// `y`: of the `n` authors, at least `n - n / 3` have an ancestor of `x`
    /// that stands at least as far in its chain as one of their descendants
    /// of `y`.
    pub fn strongly_see(&self, x: &crate::hash::Hash, y: &crate::hash::Hash, authors: &[Author]) -> (r:
        bool)
        requires
            self.wf(),
            holds(self.nodes(), *x),
            holds(self.nodes(), *y),
        ensures
            r == strongly_sees(
                self.nodes(),
                position(self.nodes(), *x),
                position(self.nodes(), *y),
                authors@,
            ),
    {
        let x = self.index_of(x).unwrap();
        let y = self.index_of(y).unwrap();
        self.strongly_see_at(x, y, authors)
    }

    /// Whether the event at `x` strongly sees the event at `y`.
    pub fn strongly_see_at(&self, x: usize, y: usize, authors: &[Author]) -> (r: bool)
        requires
            self.wf(),
            x < self.nodes().len(),
            y < self.nodes().len(),
        ensures
            r == strongly_sees(self.nodes(), x as int, y as int, authors@),
    {
        let ghost s = self.nodes();
        let down = self.mark_descendants(y);
        let up = self.mark_ancestors(x);
        let mut count: usize = 0;
        let mut k: usize = 0;
        while k < authors.len()
            invariant
                s == self.nodes(),
                x < s.len(),
                y < s.len(),
                k <= authors@.len(),
                down@ == descendant_marks(s, y as int),
                up@ == ancestor_marks(s, x as int),
                count == bridge_count(s, x as int, y as int, authors@, k as int),
                count <= k,
            decreases authors@.len() - k,
        {
            let author = authors[k];
            let low = self.extreme_seq(&down, &author, true);
            let high = self.extreme_seq(&up, &author, false);
            let bridged = match (low, high) {
                (Some(d), Some(c)) => self.nodes[c].seq >= self.nodes[d].seq,
                _ => false,
            };
            proof {
                lemma_bridge_extremes(s, x as int, y as int, author, low, high);
            }
            if bridged {
                count += 1;
            }
            k += 1;
        }
        let n = authors.len();
        count >= n - n / 3
    }

    /// For each of `authors`, in order, the sequence number of the event of
    /// theirs that arrived last, if any did.
    pub fn sync_state(&self, authors: &[Author]) -> (out: Vec<Option<u64>>)
        requires
            self.wf(),
        ensures
            out@.len() == authors@.len(),
            forall|k: int|
                0 <= k < authors@.len() ==> out@[k] == last_seq(
                    self.nodes(),
                    #[trigger] authors@[k],
                    self.nodes().len() as int,
                ),
    {
        let ghost s = self.nodes();
        let mut out: Vec<Option<u64>> = Vec::new();
        let mut k: usize = 0;
        while k < authors.len()
            invariant
                s == self.nodes(),
                k <= authors@.len(),
                out@.len() == k,
                forall|i: int|
                    0 <= i < k ==> out@[i] == last_seq(s, #[trigger] authors@[i], s.len() as int),
            decreases authors@.len() - k,
        {
            let author = authors[k];
            let mut found: Option<u64> = None;
            let mut j: usize = self.nodes.len();
            while j > 0 && found.is_none()
                invariant
                    s == self.nodes(),
                    j <= s.len(),
                    found is None ==> last_seq(s, author, s.len() as int) == last_seq(
                        s,
                        author,
                        j as int,
                    ),
                    found is Some ==> found == last_seq(s, author, s.len() as int),
                decreases j,
            {
                j -= 1;
                if self.nodes[j].author == author {
                    found = Some(self.nodes[j].seq);
                }
            }
            out.push(found);
            k += 1;
        }
        out
    }

    /// Collects what a peer lacks, from the event at `i` on.
    fn walk_from(&self, peer: &[(Author, u64)], i: usize, black: &mut Vec<bool>, out: &mut Vec<usize>)
        requires
            self.wf(),
            i < self.nodes().len(),
            old(black)@.len() == self.nodes().len(),
        ensures
            (Walk { black: final(black)@, out: final(out)@ }) == walk(
                self.nodes(),
                peer@,
                i as int,
                (Walk { black: old(black)@, out: old(out)@ }),
            ),
            final(black)@.len() == self.nodes().len(),
        decreases i,
    {
        let ghost s = self.nodes();
        let ghost w = Walk { black: black@, out: out@ };
        if black[i] {
            return ;
        }
        let node = self.nodes[i];
        if node.seq <= lookup_peer(peer, &node.author) {
            black.set(i, true);
            return ;
        }
        proof {
            assert(parent_before(s[i as int].self_parent, i as int));
            assert(parent_before(s[i as int].other_parent, i as int));
        }
        if let Some(q) = node.other_parent {
            proof {
                lemma_walk_grows(s, peer@, q as int, w);
            }
            self.walk_from(peer, q, black, out);
        }
        let ghost w1 = Walk { black: black@, out: out@ };
        if let Some(p) = node.self_parent {
            proof {
                lemma_walk_grows(s, peer@, p as int, w1);
            }
            self.walk_from(peer, p, black, out);
        }
        black.set(i, true);
        out.push(i);
    }

    /// The events that a peer lacks, parents before children. `state`
    /// gives, for some authors, the sequence number up to which the peer
    /// holds their events; an event at or below it is taken as held. The
    /// walk starts at the event that arrived last, and emits an event after
    /// what it collects from the event's other parent and then from its
    /// self-parent.
    pub fn sync(&self, state: &[(Author, u64)]) -> (out: Vec<&RawEvent>)
        requires
            self.wf(),
        ensures
            raw_refs_view(out@) == select_raw(
                self.events(),
                walk(
                    self.nodes(),
                    state@,
                    self.nodes().len() - 1,
                    fresh_walk(self.nodes().len()),
                ).out,
            ),
    {
        let n = self.nodes.len();
        let mut black: Vec<bool> = Vec::new();
        let mut i: usize = 0;
        while i < n
            invariant
                i <= n,
                black@.len() == i,
                forall|j: int| 0 <= j < i ==> !black@[j],
            decreases n - i,
        {
            black.push(false);
            i += 1;
        }
        assert(black@ =~= fresh_walk(n as nat).black);
        let mut order: Vec<usize> = Vec::new();
        let ghost s = self.nodes();
        proof {
            assert(order@ =~= fresh_walk(n as nat).out);
            assert((Walk { black: black@, out: order@ }) == fresh_walk(n as nat));
        }
        if n > 0 {
            self.walk_from(state, n - 1, &mut black, &mut order);
        }
        proof {
            lemma_walk_indices(s, state@, n - 1, fresh_walk(n as nat));
            assert(order@ == walk(s, state@, n - 1, fresh_walk(n as nat)).out);
        }
        let mut out: Vec<&RawEvent> = Vec::new();
        let mut k: usize = 0;
        assert(raw_refs_view(out@) =~= select_raw(self.events(), order@.subrange(0, 0)));
        while k < order.len()
            invariant
                self.events().len() == self.nodes().len(),
                k <= order@.len(),
                forall|j: int| 0 <= j < order@.len() ==> order@[j] < self.nodes().len(),
                raw_refs_view(out@) == select_raw(self.events(), order@.subrange(0, k as int)),
            decreases order@.len() - k,
        {
            let ghost before = out@;
            out.push(&self.events[order[k]].raw);
            proof {
                let done = order@.subrange(0, k as int);
                let next = order@.subrange(0, k + 1);
                assert(raw_refs_view(before).len() == before.len());
                assert(select_raw(self.events(), done).len() == done.len());
                assert forall|j: int| 0 <= j < out@.len() implies raw_refs_view(out@)[j]
                    == select_raw(self.events(), next)[j] by {
                    if j < before.len() {
                        assert(raw_refs_view(before)[j] == *before[j]);
                        assert(select_raw(self.events(), done)[j]
                            == self.events()[done[j] as int].raw);
                    }
                }
                assert(raw_refs_view(out@) =~= select_raw(self.events(), next));
            }
            k += 1;
        }
        assert(order@.subrange(0, k as int) =~= order@);
        out
    }
}

/// Whether `r` is, among the events that `m` marks, one by `author` with
/// the least (`least`) or the greatest sequence number, or nothing where
/// there is none.
pub open spec fn is_extreme(s: Seq<Node>, m: Seq<bool>, author: Author, least: bool, r: Option<usize>) -> bool {
    match r {
        None => forall|j: int|
            0 <= j < m.len() ==> !(m[j] && (#[trigger] s[j]).author == author),
        Some(i) => {
            &&& i < m.len()
            &&& m[i as int]
            &&& s[i as int].author == author
            &&& forall|j: int|
                0 <= j < m.len() && m[j] && (#[trigger] s[j]).author == author ==> (if least {
                    s[i as int].seq <= s[j].seq
                } else {
                    s[i as int].seq >= s[j].seq
                })
        },
    }
}

/// An author bridges `x` and `y` exactly where the latest of their
/// ancestors of `x` stands at least as far as the earliest of their
/// descendants of `y`.
pub proof fn lemma_bridge_extremes(
    s: Seq<Node>,
    x: int,
    y: int,
    author: Author,
    low: Option<usize>,
    high: Option<usize>,
)
    requires
        is_extreme(s, descendant_marks(s, y), author, true, low),
        is_extreme(s, ancestor_marks(s, x), author, false, high),
    ensures
        bridges(s, x, y, author) <==> (low is Some && high is Some && s[high.unwrap() as int].seq
            >= s[low.unwrap() as int].seq),
{
    if low is Some && high is Some && s[high.unwrap() as int].seq >= s[low.unwrap() as int].seq {
        let c = high.unwrap() as int;
        let d = low.unwrap() as int;
        assert(ancestor_marks(s, x)[c]);
        assert(descendant_marks(s, y)[d]);
        assert(bridged_by(s, x, y, author, c, d));
    }
    if bridges(s, x, y, author) {
        let (c, d) = choose|c: int, d: int| bridged_by(s, x, y, author, c, d);
        lemma_ancestor_bounds(s, x, c);
        lemma_ancestor_bounds(s, d, y);
        assert(ancestor_marks(s, x)[c] && s[c].author == author);
        assert(descendant_marks(s, y)[d] && s[d].author == author);
    }
}

/// The sequence number up to which a peer holds the events of `author`.
pub fn lookup_peer(peer: &[(Author, u64)], author: &Author) -> (seq: u64)
    ensures
        seq == peer_seq(peer@, *author),
{
    let mut j: usize = peer.len();
    assert(peer@.subrange(0, j as int) =~= peer@);
    while j > 0
        invariant
            j <= peer@.len(),
            peer_seq(peer@, *author) == peer_seq(peer@.subrange(0, j as int), *author),
        decreases j,
    {
        j -= 1;
        let ghost front = peer@.subrange(0, j + 1);
        assert(front.last() == peer@[j as int]);
        assert(front.drop_last() =~= peer@.subrange(0, j as int));
        if peer[j].0 == *author {
            return peer[j].1;
        }
    }
    0
}

/// A walk that starts with positions of the graph emits positions of the
/// graph.
pub proof fn lemma_walk_indices(s: Seq<Node>, peer: Seq<(Author, u64)>, i: int, w: Walk)
    requires
        forall|j: int| 0 <= j < w.out.len() ==> w.out[j] < s.len(),
    ensures
        forall|j: int|
            0 <= j < walk(s, peer, i, w).out.len() ==> walk(s, peer, i, w).out[j] < s.len(),
    decreases i,
{
    if !(0 <= i < s.len()) || w.black.len() != s.len() || w.black[i] {
    } else if peer_knows(s, peer, i) {
    } else {
        let w1 = match s[i].other_parent {
            Some(q) => if q < i {
                walk(s, peer, q as int, w)
            } else {
                w
            },
            None => w,
        };
        if let Some(q) = s[i].other_parent {
            if q < i {
                lemma_walk_indices(s, peer, q as int, w);
            }
        }
        let w2 = match s[i].self_parent {
            Some(p) => if p < i {
                walk(s, peer, p as int, w1)
            } else {
                w1
            },
            None => w1,
        };
        if let Some(p) = s[i].self_parent {
            if p < i {
                lemma_walk_indices(s, peer, p as int, w1);
            }
        }
        let w3 = walk(s, peer, i, w);
        assert(w3.out == w2.out.push(i as usize));
        assert forall|j: int| 0 <= j < w3.out.len() implies w3.out[j] < s.len() by {
            if j < w2.out.len() {
                assert(w3.out[j] == w2.out[j]);
            }
        }
    }
}


/// Whether the graph `b` is the graph `a` with more derived of its events:
/// the shape is the same, and each event keeps what was derived of it.
pub open spec fn graph_kept(a: Graph, b: Graph) -> bool {
    &&& b.nodes() == a.nodes()
    &&& b.events().len() == a.events().len()
    &&& forall|i: int|
        0 <= i < a.events().len() ==> derived_kept(a.events()[i], #[trigger] b.events()[i])
}

/// Whether the graphs `a` and `b` are the same but for the event at `i`.
pub open spec fn same_but_at(a: Graph, b: Graph, i: int) -> bool {
    &&& b.nodes() == a.nodes()
    &&& b.events().len() == a.events().len()
    &&& forall|j: int| 0 <= j < a.events().len() && j != i ==> b.events()[j] == a.events()[j]
}

impl Graph {
    /// Records the round of the event at `i` and whether it is a witness,
    /// unless they are recorded already.
    pub fn set_round(&mut self, i: usize, round: u64, witness: bool)
        requires
            old(self).wf(),
            i < old(self).nodes().len(),
        ensures
            final(self).wf(),
            same_but_at(*old(self), *final(self), i as int),
            final(self).events()[i as int] == (if old(self).events()[i as int].round_created
                is None {
                Event {
                    round_created: Some(round),
                    witness: Some(witness),
                    ..old(self).events()[i as int]
                }
            } else {
                old(self).events()[i as int]
            }),
    {
        if self.events[i].round_created.is_none() {
            self.events[i].round_created = Some(round);
            self.events[i].witness = Some(witness);
        }
        proof {
            assert forall|j: int| 0 <= j < self.nodes().len() implies event_ok(
                self.nodes(),
                #[trigger] self.events()[j],
                j,
            ) by {
                assert(event_ok(old(self).nodes(), old(self).events()[j], j));
            }
        }
    }

    /// Records the vote of the event at `i` on the fame of `witness`.
    pub fn set_vote(&mut self, i: usize, witness: crate::hash::Hash, vote: bool)
        requires
            old(self).wf(),
            i < old(self).nodes().len(),
        ensures
            final(self).wf(),
            same_but_at(*old(self), *final(self), i as int),
            derived_kept(old(self).events()[i as int], final(self).events()[i as int]),
            final(self).events()[i as int].round_created
                == old(self).events()[i as int].round_created,
            final(self).events()[i as int].witness == old(self).events()[i as int].witness,
            final(self).events()[i as int].famous == old(self).events()[i as int].famous,
            final(self).events()[i as int].round_received
                == old(self).events()[i as int].round_received,
            final(self).events()[i as int].time_received
                == old(self).events()[i as int].time_received,
            final(self).events()[i as int].whitened_signature
                == old(self).events()[i as int].whitened_signature,
            vote_in(final(self).events()[i as int].votes@, witness) == Some(vote),
            forall|w: crate::hash::Hash|
                w != witness ==> vote_in(final(self).events()[i as int].votes@, w) == vote_in(
                    old(self).events()[i as int].votes@,
                    w,
                ),
    {
        self.events[i].set_vote(witness, vote);
        proof {
            assert forall|j: int| 0 <= j < self.nodes().len() implies event_ok(
                self.nodes(),
                #[trigger] self.events()[j],
                j,
            ) by {
                assert(event_ok(old(self).nodes(), old(self).events()[j], j));
            }
        }
    }

    /// Records whether the witness at `i` is famous, unless that is decided
    /// already.
    pub fn set_famous(&mut self, i: usize, famous: bool)
        requires
            old(self).wf(),
            i < old(self).nodes().len(),
        ensures
            final(self).wf(),
            same_but_at(*old(self), *final(self), i as int),
            final(self).events()[i as int] == (if old(self).events()[i as int].famous is None {
                Event { famous: Some(famous), ..old(self).events()[i as int] }
            } else {
                old(self).events()[i as int]
            }),
    {
        if self.events[i].famous.is_none() {
            self.events[i].famous = Some(famous);
        }
        proof {
            assert forall|j: int| 0 <= j < self.nodes().len() implies event_ok(
                self.nodes(),
                #[trigger] self.events()[j],
                j,
            ) by {
                assert(event_ok(old(self).nodes(), old(self).events()[j], j));
            }
        }
    }

    /// Records the round in which the event at `i` was received, its
    /// consensus time and its whitened signature, unless it was received
    /// already.
    pub fn set_received(&mut self, i: usize, round: u64, time: u128, whitened: [u8; 64])
        requires
            old(self).wf(),
            i < old(self).nodes().len(),
        ensures
            final(self).wf(),
            same_but_at(*old(self), *final(self), i as int),
            final(self).events()[i as int] == (if old(self).events()[i as int].round_received
                is None {
                Event {
                    round_received: Some(round),
                    time_received: Some(time),
                    whitened_signature: Some(whitened),
                    ..old(self).events()[i as int]
                }
            } else {
                old(self).events()[i as int]
            }),
    {
        if self.events[i].round_received.is_none() {
            self.events[i].round_received = Some(round);
            self.events[i].time_received = Some(time);
            self.events[i].whitened_signature = Some(whitened);
        }
        proof {
            assert forall|j: int| 0 <= j < self.nodes().len() implies event_ok(
                self.nodes(),
                #[trigger] self.events()[j],
                j,
            ) by {
                assert(event_ok(old(self).nodes(), old(self).events()[j], j));
            }
        }
    }
}

/// What the invariant of the graph says of its shape.
pub proof fn lemma_graph_shape(graph: Graph)
    requires
        graph.wf(),
    ensures
        dag_wf(graph.nodes()),
        graph.events().len() == graph.nodes().len(),
{
}

/// What the invariant of the graph says of its shape and of the event at
/// `i`.
pub proof fn lemma_graph_wf(graph: Graph, i: int)
    requires
        graph.wf(),
        0 <= i < graph.nodes().len(),
    ensures
        dag_wf(graph.nodes()),
        graph.events().len() == graph.nodes().len(),
        event_ok(graph.nodes(), graph.events()[i], i),
        parent_before(graph.nodes()[i].self_parent, i),
        parent_before(graph.nodes()[i].other_parent, i),
{
}

/// An event is linked as its content says: where two graphs agree before
/// the place `n`, and the events at `n` have the same content, the graphs
/// agree at `n`.
pub proof fn lemma_node_settled(s: Seq<Node>, t: Seq<Node>, e: Event, f: Event, n: int)
    requires
        dag_wf(s),
        dag_wf(t),
        0 <= n < s.len(),
        n < t.len(),
        forall|i: int| 0 <= i < n ==> s[i] == t[i],
        event_ok(s, e, n),
        event_ok(t, f, n),
        e.raw == f.raw,
    ensures
        s[n] == t[n],
{
    crate::hash::lemma_hash_ext(s[n].hash, t[n].hash);
    assert(parent_before(s[n].self_parent, n) && parent_before(s[n].other_parent, n));
    assert(parent_before(t[n].self_parent, n) && parent_before(t[n].other_parent, n));
    assert(s[n].self_parent == t[n].self_parent) by {
        if let Some(p) = s[n].self_parent {
            let q = t[n].self_parent.unwrap();
            assert(s[p as int].hash == s[q as int].hash);
        }
    }
    assert(s[n].other_parent == t[n].other_parent) by {
        if let Some(p) = s[n].other_parent {
            let q = t[n].other_parent.unwrap();
            assert(s[p as int].hash == s[q as int].hash);
        }
    }
    assert(s[n].seq == t[n].seq);
}

/// Every event of the graph carries its author's signature on its digest,
/// and its digest is that of its content.
pub proof fn lemma_events_signed(graph: Graph, i: int)
    requires
        graph.wf(),
        0 <= i < graph.events().len(),
    ensures
        graph.events()[i].hash@ == digest(preimage(graph.events()[i].raw.event@)),
        signature_verifies(
            graph.events()[i].raw.event.author@,
            graph.events()[i].hash@,
            graph.events()[i].raw.signature@,
        ),
{
    assert(event_ok(graph.nodes(), graph.events()[i], i));
}

/// Every parent that an event of the graph names is an event of the graph
/// that arrived before it.
pub proof fn lemma_parents_known(graph: Graph, i: int, parent: crate::hash::Hash)
    requires
        graph.wf(),
        0 <= i < graph.events().len(),
        graph.events()[i].raw.event.self_hash
            == Some(parent) || graph.events()[i].raw.event.other_hash
            == Some(parent),
    ensures
        holds(graph.nodes(), parent),
        position(graph.nodes(), parent) < i,
{
    let s = graph.nodes();
    assert(event_ok(s, graph.events()[i], i));
    assert(parent_before(s[i].self_parent, i));
    assert(parent_before(s[i].other_parent, i));
    let p: int = if graph.events()[i].raw.event.self_hash == Some(parent) {
        s[i].self_parent.unwrap() as int
    } else {
        s[i].other_parent.unwrap() as int
    };
    assert(s[p].hash == parent);
    let q = position(s, parent);
    assert(s[q].hash == s[p].hash);
}

/// Along the self-parent chain the sequence number grows by one at each
/// event, and it is 1 at an event without self-parent.
pub proof fn lemma_seq_chain(graph: Graph, i: int)
    requires
        graph.wf(),
        0 <= i < graph.events().len(),
    ensures
        graph.events()[i].raw.event.self_hash is None ==> graph.events()[i].seq == 1,
        graph.events()[i].raw.event.self_hash matches Some(parent) ==> holds(
            graph.nodes(),
            parent,
        ) && graph.events()[i].seq == graph.events()[position(graph.nodes(), parent)].seq + 1,
{
    let s = graph.nodes();
    assert(event_ok(s, graph.events()[i], i));
    if let Some(parent) = graph.events()[i].raw.event.self_hash {
        lemma_parents_known(graph, i, parent);
        let p = s[i].self_parent.unwrap() as int;
        let q = position(s, parent);
        assert(s[q].hash == s[p].hash);
        assert(event_ok(s, graph.events()[p], p));
    }
}

} // verus!
