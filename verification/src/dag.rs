//! The shape of the gossip graph, as mathematics: events numbered in the
//! order of their arrival, each naming parents that arrived before it, and
//! the relations of ancestry and of seeing on them.
use crate::author::Author;
use vstd::prelude::*;

verus! {

/// What the relations of the graph read of an event: its digest, author and
/// place in its chain, and the positions of its parents.
#[derive(Clone, Copy, Debug)]
pub struct Node {
    /// The digest of the event.
    pub hash: crate::hash::Hash,
    /// The author of the event.
    pub author: Author,
    /// The place of the event in its self-parent chain, counted from 1.
    pub seq: u64,
    /// The position of the self-parent.
    pub self_parent: Option<usize>,
    /// The position of the other parent.
    pub other_parent: Option<usize>,
}

/// Whether `p`, if it names a parent of the event at `x`, names an earlier
/// event.
pub open spec fn parent_before(p: Option<usize>, x: int) -> bool {
    p matches Some(q) ==> q < x
}

/// Whether the event at `x` names the event at `p` as one of its parents.
pub open spec fn is_parent(s: Seq<Node>, x: int, p: int) -> bool {
    &&& 0 <= p < x < s.len()
    &&& ((s[x].self_parent matches Some(q) && q == p) || (s[x].other_parent matches Some(q) && q
        == p))
}

/// A well-formed graph: parents come before their children, no digest
/// occurs twice, and along self-parent links the sequence number grows by
/// one, from 1 at an event without self-parent.
pub open spec fn dag_wf(s: Seq<Node>) -> bool {
    &&& forall|x: int|
        0 <= x < s.len() ==> parent_before(#[trigger] s[x].self_parent, x) && parent_before(
            s[x].other_parent,
            x,
        )
    &&& forall|x: int|
        0 <= x < s.len() ==> (match (#[trigger] s[x]).self_parent {
            Some(p) => s[x].seq == s[p as int].seq + 1,
            None => s[x].seq == 1,
        })
    &&& forall|x: int| 0 <= x < s.len() ==> 1 <= (#[trigger] s[x]).seq <= x + 1
    &&& forall|x: int, y: int|
        #![trigger s[x].hash, s[y].hash]
        0 <= x < s.len() && 0 <= y < s.len() && s[x].hash == s[y].hash ==> x == y
}

/// The event at `y` is an ancestor of the event at `x`: it is reached from
/// `x` by following parent links zero or more times.
pub open spec fn ancestor(s: Seq<Node>, x: int, y: int) -> bool
    decreases x,
{
    &&& 0 <= x < s.len()
    &&& (x == y || (match s[x].self_parent {
        Some(p) => p < x && ancestor(s, p as int, y),
        None => false,
    }) || (match s[x].other_parent {
        Some(p) => p < x && ancestor(s, p as int, y),
        None => false,
    }))
}

/// The event at `y` is a self-ancestor of the event at `x`: it is reached
/// from `x` by following self-parent links zero or more times.
pub open spec fn self_ancestor(s: Seq<Node>, x: int, y: int) -> bool
    decreases x,
{
    &&& 0 <= x < s.len()
    &&& (x == y || (match s[x].self_parent {
        Some(p) => p < x && self_ancestor(s, p as int, y),
        None => false,
    }))
}

/// The event at `x` sees the event at `y`: `y` is an ancestor of `x`, and
/// any two ancestors of `x` by the author of `y` lie on one self-parent
/// chain, so that `x` knows of no fork by that author.
pub open spec fn sees(s: Seq<Node>, x: int, y: int) -> bool {
    &&& ancestor(s, x, y)
    &&& forall|a: int, b: int|
        #![trigger ancestor(s, x, a), ancestor(s, x, b)]
        ancestor(s, x, a) && ancestor(s, x, b) && s[a].author == s[y].author && s[b].author
            == s[y].author ==> self_ancestor(s, a, b) || self_ancestor(s, b, a)
}

/// The author `a` bridges `x` and `y` by the events `c` and `d`: `c` is an
/// ancestor of `x` and `d` a descendant of `y`, both by `a`, and `c` stands
/// at least as far in its chain as `d`.
pub open spec fn bridged_by(s: Seq<Node>, x: int, y: int, a: Author, c: int, d: int) -> bool {
    &&& ancestor(s, x, c)
    &&& ancestor(s, d, y)
    &&& s[c].author == a
    &&& s[d].author == a
    &&& s[c].seq >= s[d].seq
}

/// The author `a` bridges `x` and `y`: the latest ancestor of `x` by `a`
/// stands at least as far in its chain as the earliest descendant of `y` by
/// `a`.
pub open spec fn bridges(s: Seq<Node>, x: int, y: int, a: Author) -> bool {
    exists|c: int, d: int| bridged_by(s, x, y, a, c, d)
}

/// How many of the first `n` entries of `authors` bridge `x` and `y`.
pub open spec fn bridge_count(s: Seq<Node>, x: int, y: int, authors: Seq<Author>, n: int) -> int
    decreases n,
{
    if n <= 0 {
        0
    } else {
        bridge_count(s, x, y, authors, n - 1) + (if bridges(s, x, y, authors[n - 1]) {
            1int
        } else {
            0int
        })
    }
}

/// The event at `x` strongly sees the event at `y`: of the `n` authors, at
/// least `n - n / 3` bridge the two.
pub open spec fn strongly_sees(s: Seq<Node>, x: int, y: int, authors: Seq<Author>) -> bool {
    bridge_count(s, x, y, authors, authors.len() as int) >= authors.len() - authors.len() / 3
}

/// An ancestor stands at or before its descendant.
pub proof fn lemma_ancestor_bounds(s: Seq<Node>, x: int, y: int)
    requires
        ancestor(s, x, y),
    ensures
        0 <= y <= x < s.len(),
    decreases x,
{
    if x != y {
        if let Some(p) = s[x].self_parent {
            if p < x && ancestor(s, p as int, y) {
                lemma_ancestor_bounds(s, p as int, y);
                return ;
            }
        }
        if let Some(p) = s[x].other_parent {
            if p < x && ancestor(s, p as int, y) {
                lemma_ancestor_bounds(s, p as int, y);
            }
        }
    }
}

/// A self-ancestor is an ancestor, stands at or before its descendant, and
/// stands exactly as many places earlier in the chain as the sequence
/// numbers tell.
pub proof fn lemma_self_ancestor(s: Seq<Node>, x: int, y: int)
    requires
        dag_wf(s),
        self_ancestor(s, x, y),
    ensures
        ancestor(s, x, y),
        0 <= y <= x < s.len(),
        s[y].seq <= s[x].seq,
        s[y].seq == s[x].seq ==> x == y,
    decreases x,
{
    if x != y {
        let p = s[x].self_parent.unwrap();
        lemma_self_ancestor(s, p as int, y);
    }
}

/// Ancestry is transitive.
pub proof fn lemma_ancestor_transitive(s: Seq<Node>, x: int, y: int, z: int)
    requires
        ancestor(s, x, y),
        ancestor(s, y, z),
    ensures
        ancestor(s, x, z),
    decreases x,
{
    if x != y {
        if let Some(p) = s[x].self_parent {
            if p < x && ancestor(s, p as int, y) {
                lemma_ancestor_transitive(s, p as int, y, z);
                return ;
            }
        }
        if let Some(p) = s[x].other_parent {
            if p < x && ancestor(s, p as int, y) {
                lemma_ancestor_transitive(s, p as int, y, z);
            }
        }
    }
}

/// A parent of an ancestor is an ancestor.
pub proof fn lemma_ancestor_parent(s: Seq<Node>, x: int, k: int, p: int)
    requires
        ancestor(s, x, k),
        is_parent(s, k, p),
    ensures
        ancestor(s, x, p),
{
    assert(ancestor(s, p, p));
    assert(ancestor(s, k, p));
    lemma_ancestor_transitive(s, x, k, p);
}

/// Whether the marks `m` hold the parents of the event at `c`, where they
/// hold the event.
pub open spec fn holds_parents(s: Seq<Node>, m: Seq<bool>, c: int) -> bool {
    m[c] ==> {
        &&& s[c].self_parent matches Some(p) ==> m[p as int]
        &&& s[c].other_parent matches Some(p) ==> m[p as int]
    }
}

/// Whether the marks `m` are closed under parents from `from` to `x`: a
/// marked event in that range has its parents marked.
pub open spec fn closed_marks(s: Seq<Node>, m: Seq<bool>, from: int, x: int) -> bool {
    forall|c: int| from <= c <= x ==> #[trigger] holds_parents(s, m, c)
}

/// Marks closed under parents hold every ancestor of a marked event.
pub proof fn lemma_closed_marks(s: Seq<Node>, m: Seq<bool>, x: int, z: int, y: int)
    requires
        m.len() == s.len(),
        closed_marks(s, m, 0, x),
        0 <= z <= x,
        m[z],
        ancestor(s, z, y),
    ensures
        m[y],
    decreases z,
{
    assert(holds_parents(s, m, z));
    if z != y {
        if let Some(p) = s[z].self_parent {
            if p < z && ancestor(s, p as int, y) {
                lemma_closed_marks(s, m, x, p as int, y);
                return ;
            }
        }
        if let Some(p) = s[z].other_parent {
            if p < z && ancestor(s, p as int, y) {
                lemma_closed_marks(s, m, x, p as int, y);
            }
        }
    }
}

/// Marking the parents of the event at `k` keeps the marks closed above
/// `k` and closes them at `k`.
pub proof fn lemma_close_at(s: Seq<Node>, before: Seq<bool>, after: Seq<bool>, k: int, x: int)
    requires
        dag_wf(s),
        0 <= k <= x < s.len(),
        before.len() == s.len(),
        after.len() == s.len(),
        closed_marks(s, before, k + 1, x),
        forall|j: int| 0 <= j < s.len() && before[j] ==> after[j],
        forall|j: int| k <= j < s.len() ==> after[j] == before[j],
        holds_parents(s, after, k),
    ensures
        closed_marks(s, after, k, x),
{
    assert forall|c: int| k <= c <= x implies #[trigger] holds_parents(s, after, c) by {
        if c > k {
            assert(holds_parents(s, before, c));
            assert(parent_before(s[c].self_parent, c));
            assert(parent_before(s[c].other_parent, c));
        }
    }
}

/// Seeing implies ancestry.
pub proof fn lemma_see_implies_ancestor(s: Seq<Node>, x: int, y: int)
    requires
        sees(s, x, y),
    ensures
        ancestor(s, x, y),
{
}

/// The bridging authors are among the first `n`.
pub proof fn lemma_bridge_count_bounds(s: Seq<Node>, x: int, y: int, authors: Seq<Author>, n: int)
    requires
        0 <= n,
    ensures
        0 <= bridge_count(s, x, y, authors, n) <= n,
    decreases n,
{
    if n > 0 {
        lemma_bridge_count_bounds(s, x, y, authors, n - 1);
    }
}

/// Strongly seeing is witnessed by at least two thirds of the authors:
/// three times the number of bridging authors is at least twice the number
/// of authors.
pub proof fn lemma_strongly_see_threshold(s: Seq<Node>, x: int, y: int, authors: Seq<Author>)
    requires
        strongly_sees(s, x, y, authors),
    ensures
        3 * bridge_count(s, x, y, authors, authors.len() as int) >= 2 * authors.len(),
        bridge_count(s, x, y, authors, authors.len() as int) <= authors.len(),
{
    lemma_bridge_count_bounds(s, x, y, authors, authors.len() as int);
}

/// Whether the graph holds no fork: any two events by one author lie on one
/// self-parent chain.
pub open spec fn fork_free(s: Seq<Node>) -> bool {
    forall|a: int, b: int|
        #![trigger s[a], s[b]]
        0 <= a < s.len() && 0 <= b < s.len() && s[a].author == s[b].author ==> self_ancestor(
            s,
            a,
            b,
        ) || self_ancestor(s, b, a)
}

/// Where some author bridges `x` and `y` in a graph without forks, `x` sees
/// `y`.
pub proof fn lemma_bridge_sees(s: Seq<Node>, x: int, y: int, a: Author)
    requires
        dag_wf(s),
        fork_free(s),
        bridges(s, x, y, a),
    ensures
        sees(s, x, y),
{
    let (c, d) = choose|c: int, d: int| bridged_by(s, x, y, a, c, d);
    lemma_ancestor_bounds(s, x, c);
    lemma_ancestor_bounds(s, d, y);
    assert(s[c].author == s[d].author);
    if self_ancestor(s, c, d) {
        lemma_self_ancestor(s, c, d);
    } else {
        assert(self_ancestor(s, d, c));
        lemma_self_ancestor(s, d, c);
        assert(c == d);
    }
    assert(ancestor(s, c, d));
    lemma_ancestor_transitive(s, x, c, d);
    lemma_ancestor_transitive(s, x, d, y);
    assert forall|a: int, b: int|
        ancestor(s, x, a) && ancestor(s, x, b) && s[a].author == s[y].author && s[b].author
            == s[y].author implies self_ancestor(s, a, b) || self_ancestor(s, b, a) by {
        lemma_ancestor_bounds(s, x, a);
        lemma_ancestor_bounds(s, x, b);
    }
}

/// Among at least one author, strongly seeing needs a bridging author.
pub proof fn lemma_strongly_see_bridge(s: Seq<Node>, x: int, y: int, authors: Seq<Author>, n: int)
    requires
        0 <= n <= authors.len(),
        bridge_count(s, x, y, authors, n) > 0,
    ensures
        exists|k: int| 0 <= k < n && bridges(s, x, y, #[trigger] authors[k]),
    decreases n,
{
    if n > 0 {
        if bridges(s, x, y, authors[n - 1]) {
        } else {
            lemma_strongly_see_bridge(s, x, y, authors, n - 1);
        }
    }
}

/// In a graph without forks, strongly seeing among at least one author
/// implies seeing.
pub proof fn lemma_strongly_see_implies_see(s: Seq<Node>, x: int, y: int, authors: Seq<Author>)
    requires
        dag_wf(s),
        fork_free(s),
        authors.len() > 0,
        strongly_sees(s, x, y, authors),
    ensures
        sees(s, x, y),
{
    lemma_strongly_see_bridge(s, x, y, authors, authors.len() as int);
    let k = choose|k: int| 0 <= k < authors.len() && bridges(s, x, y, #[trigger] authors[k]);
    lemma_bridge_sees(s, x, y, authors[k]);
}


/// The digests of the events among the first `n` that name the event at `i`
/// as a parent, each once, in the order of their arrival.
pub open spec fn children_of(s: Seq<Node>, i: int, n: int) -> Seq<crate::hash::Hash>
    decreases n,
{
    if n <= 0 {
        Seq::empty()
    } else if (s[n - 1].self_parent matches Some(q) && q == i) || (s[n - 1].other_parent matches Some(
        q,
    ) && q == i) {
        children_of(s, i, n - 1).push(s[n - 1].hash)
    } else {
        children_of(s, i, n - 1)
    }
}

/// The children among the events of a graph are not changed by events that
/// arrive later.
pub proof fn lemma_children_grow(s: Seq<Node>, t: Seq<Node>, i: int, n: int)
    requires
        n <= s.len() <= t.len(),
        forall|j: int| 0 <= j < s.len() ==> s[j] == t[j],
    ensures
        children_of(t, i, n) == children_of(s, i, n),
    decreases n,
{
    if n > 0 {
        lemma_children_grow(s, t, i, n - 1);
    }
}

/// An event has no children among the events that arrived before it or
/// with it.
pub proof fn lemma_children_later(s: Seq<Node>, i: int, n: int)
    requires
        dag_wf(s),
        n <= s.len(),
        n <= i + 1,
    ensures
        children_of(s, i, n) == Seq::<crate::hash::Hash>::empty(),
    decreases n,
{
    if n > 0 {
        lemma_children_later(s, i, n - 1);
        assert(parent_before(s[n - 1].self_parent, n - 1));
        assert(parent_before(s[n - 1].other_parent, n - 1));
    }
}

/// The positions below `n` that `m` marks, the latest first.
pub open spec fn marked(m: Seq<bool>, n: int) -> Seq<int>
    decreases n,
{
    if n <= 0 {
        Seq::empty()
    } else if m[n - 1] {
        seq![n - 1] + marked(m, n - 1)
    } else {
        marked(m, n - 1)
    }
}

/// Marks that mark none of `n` positions.
pub open spec fn no_marks(n: nat) -> Seq<bool> {
    Seq::new(n, |j: int| false)
}

/// The marks that mark what `a` marks and what `b` marks.
pub open spec fn either(a: Seq<bool>, b: Seq<bool>) -> Seq<bool> {
    Seq::new(a.len(), |j: int| a[j] || b[j])
}

/// The marks of the ancestors of the event at `x`.
pub open spec fn ancestor_marks(s: Seq<Node>, x: int) -> Seq<bool> {
    Seq::new(s.len(), |j: int| ancestor(s, x, j))
}

/// The marks of the descendants of the event at `y`.
pub open spec fn descendant_marks(s: Seq<Node>, y: int) -> Seq<bool> {
    Seq::new(s.len(), |j: int| ancestor(s, j, y))
}

/// The positions of the self-ancestors of the event at `x`, itself first.
pub open spec fn self_chain(s: Seq<Node>, x: int) -> Seq<int>
    decreases x,
{
    if 0 <= x < s.len() {
        seq![x] + (match s[x].self_parent {
            Some(p) => if p < x {
                self_chain(s, p as int)
            } else {
                Seq::empty()
            },
            None => Seq::empty(),
        })
    } else {
        Seq::empty()
    }
}


/// The sequence number of the last event by `a` among the first `n`.
pub open spec fn last_seq(s: Seq<Node>, a: Author, n: int) -> Option<u64>
    decreases n,
{
    if n <= 0 {
        None
    } else if s[n - 1].author == a {
        Some(s[n - 1].seq)
    } else {
        last_seq(s, a, n - 1)
    }
}

/// The sequence number up to which a peer holds the events of `a`: that of
/// the last entry for `a` in its state, or 0.
pub open spec fn peer_seq(peer: Seq<(Author, u64)>, a: Author) -> u64
    decreases peer.len(),
{
    if peer.len() == 0 {
        0
    } else if peer.last().0 == a {
        peer.last().1
    } else {
        peer_seq(peer.drop_last(), a)
    }
}

/// Whether the peer is taken to hold the event at `i` already.
pub open spec fn peer_knows(s: Seq<Node>, peer: Seq<(Author, u64)>, i: int) -> bool {
    s[i].seq <= peer_seq(peer, s[i].author)
}

/// The state of a walk over the graph: the events that are done with, and
/// the positions emitted so far.
pub struct Walk {
    pub black: Seq<bool>,
    pub out: Seq<usize>,
}

/// The walk that collects what a peer lacks, from the event at `i` on: an
/// event that is done with, or that the peer holds, is passed over; any
/// other is emitted after what the walk collects from its other parent and
/// then from its self-parent.
pub open spec fn walk(s: Seq<Node>, peer: Seq<(Author, u64)>, i: int, w: Walk) -> Walk
    decreases i,
{
    if !(0 <= i < s.len()) || w.black.len() != s.len() || w.black[i] {
        w
    } else if peer_knows(s, peer, i) {
        Walk { black: w.black.update(i, true), out: w.out }
    } else {
        let w1 = match s[i].other_parent {
            Some(q) => if q < i {
                walk(s, peer, q as int, w)
            } else {
                w
            },
            None => w,
        };
        let w2 = match s[i].self_parent {
            Some(p) => if p < i {
                walk(s, peer, p as int, w1)
            } else {
                w1
            },
            None => w1,
        };
        Walk { black: w2.black.update(i, true), out: w2.out.push(i as usize) }
    }
}

/// A walk keeps the number of marks, keeps what was done with, and keeps
/// what was emitted as the start of what it emits.
pub proof fn lemma_walk_grows(s: Seq<Node>, peer: Seq<(Author, u64)>, i: int, w: Walk)
    requires
        w.black.len() == s.len(),
    ensures
        walk(s, peer, i, w).black.len() == s.len(),
        forall|j: int| 0 <= j < s.len() && w.black[j] ==> walk(s, peer, i, w).black[j],
        w.out.len() <= walk(s, peer, i, w).out.len(),
        walk(s, peer, i, w).out.subrange(0, w.out.len() as int) == w.out,
        0 <= i < s.len() ==> walk(s, peer, i, w).black[i],
    decreases i,
{
    if !(0 <= i < s.len()) || w.black[i] {
        assert(w.out.subrange(0, w.out.len() as int) =~= w.out);
    } else if peer_knows(s, peer, i) {
        assert(w.out.subrange(0, w.out.len() as int) =~= w.out);
    } else {
        let w1 = match s[i].other_parent {
            Some(q) => if q < i {
                walk(s, peer, q as int, w)
            } else {
                w
            },
            None => w,
        };
        if let Some(q) = s[i].other_parent {
            if q < i {
                lemma_walk_grows(s, peer, q as int, w);
            }
        }
        assert(w1.out.subrange(0, w.out.len() as int) =~= w.out);
        let w2 = match s[i].self_parent {
            Some(p) => if p < i {
                walk(s, peer, p as int, w1)
            } else {
                w1
            },
            None => w1,
        };
        if let Some(p) = s[i].self_parent {
            if p < i {
                lemma_walk_grows(s, peer, p as int, w1);
            }
        }
        assert(w2.out.subrange(0, w1.out.len() as int) =~= w1.out);
        assert(w2.out.subrange(0, w.out.len() as int) =~= w1.out.subrange(
            0,
            w.out.len() as int,
        ));
        let w3 = walk(s, peer, i, w);
        assert(w3.out.subrange(0, w.out.len() as int) =~= w.out);
    }
}


/// A well-formed graph stays so when an event arrives whose parents are
/// known, whose digest is new, and whose sequence number follows that of its
/// self-parent.
pub proof fn lemma_dag_push(s: Seq<Node>, node: Node)
    requires
        dag_wf(s),
        node.self_parent matches Some(p) ==> p < s.len() && node.seq == s[p as int].seq + 1,
        node.self_parent is None ==> node.seq == 1,
        node.other_parent matches Some(q) ==> q < s.len(),
        forall|i: int| 0 <= i < s.len() ==> (#[trigger] s[i]).hash != node.hash,
    ensures
        dag_wf(s.push(node)),
{
    let t = s.push(node);
    let n = s.len() as int;
    assert forall|x: int| 0 <= x < t.len() implies parent_before(
        #[trigger] t[x].self_parent,
        x,
    ) && parent_before(t[x].other_parent, x) by {
        if x < n {
            assert(t[x] == s[x]);
            assert(parent_before(s[x].self_parent, x));
        }
    }
    assert forall|x: int| 0 <= x < t.len() implies (match (#[trigger] t[x]).self_parent {
        Some(p) => t[x].seq == t[p as int].seq + 1,
        None => t[x].seq == 1,
    }) by {
        if x < n {
            assert(t[x] == s[x]);
            assert(parent_before(s[x].self_parent, x));
        } else if let Some(p) = node.self_parent {
            assert(t[p as int] == s[p as int]);
        }
    }
    assert forall|x: int| 0 <= x < t.len() implies 1 <= (#[trigger] t[x]).seq <= x + 1 by {
        if x < n {
            assert(t[x] == s[x]);
        } else if let Some(p) = node.self_parent {
            assert(s[p as int].seq <= p + 1);
        }
    }
    assert forall|x: int, y: int|
        #![trigger t[x].hash, t[y].hash]
        0 <= x < t.len() && 0 <= y < t.len() && t[x].hash == t[y].hash implies x == y by {
        if x < n {
            assert(t[x] == s[x]);
        }
        if y < n {
            assert(t[y] == s[y]);
        }
    }
}

} // verus!
