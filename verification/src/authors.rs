//! Sets of authors, kept in the order of their bytes.
use crate::author::{lemma_author_ext, Author};
use crate::bytes::{lemma_lex_asymmetric, lex_lt};
use crate::tree::{ascending, lemma_place, Tree};
use vstd::prelude::*;

verus! {

/// Whether the keys `keys` ascend strictly in the order of their bytes.
pub open spec fn rising(keys: Seq<Seq<u8>>) -> bool {
    forall|i: int, j: int| 0 <= i < j < keys.len() ==> lex_lt(#[trigger] keys[i], #[trigger] keys[j])
}

/// Whether `keys` is the list of the members of `set`: each member once and
/// nothing else, ascending in the order of their bytes.
pub open spec fn listing(keys: Seq<Seq<u8>>, set: Set<Seq<u8>>) -> bool {
    &&& rising(keys)
    &&& forall|key: Seq<u8>| keys.contains(key) <==> set.contains(key)
}

/// The list of the members of `set`: each once, ascending in the order of
/// their bytes. A set that has such a list has one only.
pub open spec fn list_of(set: Set<Seq<u8>>) -> Seq<Seq<u8>> {
    choose|keys: Seq<Seq<u8>>| listing(keys, set)
}

/// A list of the members of a set is the list of the set.
pub proof fn lemma_list_of(keys: Seq<Seq<u8>>, set: Set<Seq<u8>>)
    requires
        listing(keys, set),
    ensures
        list_of(set) == keys,
{
    lemma_listing_unique(list_of(set), keys, set);
}

/// The list of the empty set is empty.
pub proof fn lemma_list_of_empty()
    ensures
        list_of(Set::<Seq<u8>>::empty()) == Seq::<Seq<u8>>::empty(),
{
    lemma_list_of(Seq::<Seq<u8>>::empty(), Set::<Seq<u8>>::empty());
}

/// The last key of a list of a set is the last key of every list of it.
proof fn lemma_listing_last(a: Seq<Seq<u8>>, b: Seq<Seq<u8>>, set: Set<Seq<u8>>)
    requires
        listing(a, set),
        listing(b, set),
        a.len() > 0,
    ensures
        b.len() > 0,
        b.last() == a.last(),
{
    let x = a.last();
    assert(a.contains(x));
    assert(b.contains(x));
    let y = b.last();
    assert(b.contains(y));
    assert(a.contains(y));
    let i = choose|i: int| 0 <= i < a.len() && a[i] == y;
    let j = choose|j: int| 0 <= j < b.len() && b[j] == x;
    if x != y {
        assert(lex_lt(a[i], a[a.len() - 1]));
        assert(lex_lt(b[j], b[b.len() - 1]));
        lemma_lex_asymmetric(x, y);
    }
}

/// A set has one list: two lists of the members of one set are equal.
pub proof fn lemma_listing_unique(a: Seq<Seq<u8>>, b: Seq<Seq<u8>>, set: Set<Seq<u8>>)
    requires
        listing(a, set),
        listing(b, set),
    ensures
        a == b,
    decreases a.len(),
{
    if a.len() == 0 {
        if b.len() > 0 {
            assert(b.contains(b[0]));
            assert(a.contains(b[0]));
        }
        assert(a =~= b);
    } else {
        lemma_listing_last(a, b, set);
        let x = a.last();
        let rest = set.remove(x);
        assert forall|key: Seq<u8>| a.drop_last().contains(key) <==> rest.contains(key) by {
            if a.drop_last().contains(key) {
                let i = choose|i: int| 0 <= i < a.drop_last().len() && a.drop_last()[i] == key;
                assert(a[i] == key);
                assert(lex_lt(a[i], a[a.len() - 1]));
                lemma_lex_asymmetric(key, x);
                assert(a.contains(key));
            }
            if rest.contains(key) {
                assert(a.contains(key));
                let i = choose|i: int| 0 <= i < a.len() && a[i] == key;
                assert(a.drop_last()[i] == key);
            }
        }
        assert forall|key: Seq<u8>| b.drop_last().contains(key) <==> rest.contains(key) by {
            if b.drop_last().contains(key) {
                let i = choose|i: int| 0 <= i < b.drop_last().len() && b.drop_last()[i] == key;
                assert(b[i] == key);
                assert(lex_lt(b[i], b[b.len() - 1]));
                lemma_lex_asymmetric(key, x);
                assert(b.contains(key));
            }
            if rest.contains(key) {
                assert(b.contains(key));
                let i = choose|i: int| 0 <= i < b.len() && b[i] == key;
                assert(b.drop_last()[i] == key);
            }
        }
        assert(rising(a.drop_last())) by {
            assert forall|i: int, j: int| 0 <= i < j < a.drop_last().len() implies lex_lt(
                #[trigger] a.drop_last()[i],
                #[trigger] a.drop_last()[j],
            ) by {
                assert(lex_lt(a[i], a[j]));
            }
        }
        assert(rising(b.drop_last())) by {
            assert forall|i: int, j: int| 0 <= i < j < b.drop_last().len() implies lex_lt(
                #[trigger] b.drop_last()[i],
                #[trigger] b.drop_last()[j],
            ) by {
                assert(lex_lt(b[i], b[j]));
            }
        }
        lemma_listing_unique(a.drop_last(), b.drop_last(), rest);
        assert(a =~= a.drop_last().push(x));
        assert(b =~= b.drop_last().push(x));
    }
}

/// A set of authors. Its members are listed in the order of their bytes.
#[derive(Debug)]
pub struct AuthorSet {
    tree: Tree,
}

impl View for AuthorSet {
    type V = Set<Seq<u8>>;

    /// The key bytes of the members.
    open spec fn view(&self) -> Set<Seq<u8>> {
        Set::new(|key: Seq<u8>| self.has(key))
    }
}

impl AuthorSet {
    /// The key bytes of the members, ascending.
    pub closed spec fn keys(&self) -> Seq<Seq<u8>> {
        self.tree.pairs().map_values(|p: (Seq<u8>, Seq<u8>)| p.0)
    }

    /// Whether the set has a member with the key bytes `key`.
    pub closed spec fn has(&self, key: Seq<u8>) -> bool {
        self.tree@.dom().contains(key)
    }

    /// The invariant of the set: the keys of its members ascend strictly,
    /// and each has 32 bytes.
    pub closed spec fn wf(&self) -> bool {
        &&& self.tree.wf()
        &&& forall|i: int|
            0 <= i < self.tree.pairs().len() ==> (#[trigger] self.tree.pairs()[i]).0.len() == 32
    }

    /// What the invariant says of the list of keys: a key is listed exactly
    /// where the set has it, and each key has 32 bytes.
    pub proof fn lemma_keys(&self)
        requires
            self.wf(),
        ensures
            forall|key: Seq<u8>| self.keys().contains(key) <==> self.has(key),
            forall|i: int| 0 <= i < self.keys().len() ==> (#[trigger] self.keys()[i]).len() == 32,
            self.keys().no_duplicates(),
            listing(self.keys(), self@),
            self.keys() == list_of(self@),
    {
        let pairs = self.tree.pairs();
        assert forall|i: int, j: int| 0 <= i < j < self.keys().len() implies lex_lt(
            #[trigger] self.keys()[i],
            #[trigger] self.keys()[j],
        ) by {
            assert(lex_lt(pairs[i].0, pairs[j].0));
        }
        assert forall|key: Seq<u8>| self.keys().contains(key) <==> self.has(key) by {
            if self.keys().contains(key) {
                let i = choose|i: int| 0 <= i < self.keys().len() && self.keys()[i] == key;
                assert(pairs[i].0 == key);
            }
            if self.has(key) {
                let i = crate::tree::place_of(pairs, key);
                assert(self.keys()[i] == key);
            }
        }
        assert forall|i: int, j: int|
            0 <= i < self.keys().len() && 0 <= j < self.keys().len() && i
                != j implies self.keys()[i] != self.keys()[j] by {
            lemma_place(pairs, i);
            lemma_place(pairs, j);
        }
        lemma_list_of(self.keys(), self@);
    }

    /// The list of the keys depends on the members alone: two sets with the
    /// same members list the same keys in the same order.
    pub proof fn lemma_same_keys(&self, other: AuthorSet)
        requires
            self.wf(),
            other.wf(),
            self@ == other@,
        ensures
            self.keys() == other.keys(),
    {
        self.lemma_keys();
        other.lemma_keys();
        lemma_listing_unique(self.keys(), other.keys(), self@);
    }

    /// The set is finite, has as many members as keys are listed, and is the
    /// set of the keys listed.
    pub proof fn lemma_card(&self)
        requires
            self.wf(),
        ensures
            self@.finite(),
            self@.len() == self.keys().len(),
            self@ == self.keys().to_set(),
            self.keys().no_duplicates(),
    {
        self.lemma_keys();
        vstd::seq_lib::seq_to_set_is_finite(self.keys());
        self.keys().unique_seq_to_set();
        assert(self@ =~= self.keys().to_set());
    }

    /// The empty set.
    pub fn new() -> (set: AuthorSet)
        ensures
            set.wf(),
            set.keys().len() == 0,
            set@ == Set::<Seq<u8>>::empty(),
    {
        let set = AuthorSet { tree: Tree::new() };
        assert(set@ =~= Set::<Seq<u8>>::empty());
        set
    }

    /// The number of members.
    pub fn len(&self) -> (n: usize)
        ensures
            n == self.keys().len(),
    {
        self.tree.len()
    }

    /// Whether `author` is a member.
    pub fn contains(&self, author: &Author) -> (out: bool)
        requires
            self.wf(),
        ensures
            out == self@.contains(author@),
    {
        self.tree.contains_key(author.as_bytes().as_slice())
    }

    /// Makes `author` a member.
    pub fn insert(&mut self, author: Author)
        requires
            old(self).wf(),
        ensures
            final(self).wf(),
            final(self)@ == old(self)@.insert(author@),
    {
        proof {
            lemma_author_ext(author, author);
            crate::tree::lemma_put(old(self).tree.pairs(), author@, Seq::empty());
        }
        let empty: Vec<u8> = Vec::new();
        self.tree.insert(author.as_bytes().as_slice(), empty.as_slice());
        proof {
            let before = old(self).tree.pairs();
            let after = self.tree.pairs();
            assert forall|i: int| 0 <= i < after.len() implies (#[trigger] after[i]).0.len()
                == 32 by {
                lemma_place(after, i);
                if after[i].0 != author@ {
                    assert(crate::tree::has_key(before, after[i].0));
                    let j = crate::tree::place_of(before, after[i].0);
                    assert(before[j].0.len() == 32);
                }
            }
            assert(self@ =~= old(self)@.insert(author@));
        }
    }

    /// Makes `author` no member.
    pub fn remove(&mut self, author: &Author)
        requires
            old(self).wf(),
        ensures
            final(self).wf(),
            final(self)@ == old(self)@.remove(author@),
    {
        self.tree.remove(author.as_bytes().as_slice());
        proof {
            let before = old(self).tree.pairs();
            let after = self.tree.pairs();
            assert forall|i: int| 0 <= i < after.len() implies (#[trigger] after[i]).0.len()
                == 32 by {
                lemma_place(after, i);
                assert(self.tree@.dom().contains(after[i].0));
                assert(old(self).tree@.dom().contains(after[i].0));
                let j = crate::tree::place_of(before, after[i].0);
                assert(before[j].0.len() == 32);
            }
            assert(self@ =~= old(self)@.remove(author@));
        }
    }

    /// Removes every member.
    pub fn clear(&mut self)
        ensures
            final(self).wf(),
            final(self).keys().len() == 0,
            final(self)@ == Set::<Seq<u8>>::empty(),
    {
        self.tree.clear();
        assert(self@ =~= Set::<Seq<u8>>::empty());
    }

    /// The member at place `i` of the list.
    pub fn member(&self, i: usize) -> (author: Author)
        requires
            self.wf(),
            i < self.keys().len(),
        ensures
            author@ == self.keys()[i as int],
    {
        let (key, _) = self.tree.entry(i);
        assert(self.tree.pairs()[i as int].0.len() == 32);
        Author::from_key(key)
    }

    /// The members, in the order of their bytes.
    pub fn to_vec(&self) -> (out: Vec<Author>)
        requires
            self.wf(),
        ensures
            out@.len() == self.keys().len(),
            forall|i: int| 0 <= i < out@.len() ==> (#[trigger] out@[i])@ == self.keys()[i],
    {
        let mut out: Vec<Author> = Vec::new();
        let mut i: usize = 0;
        while i < self.len()
            invariant
                self.wf(),
                i <= self.keys().len(),
                out@.len() == i,
                forall|j: int| 0 <= j < i ==> (#[trigger] out@[j])@ == self.keys()[j],
            decreases self.keys().len() - i,
        {
            out.push(self.member(i));
            i += 1;
        }
        out
    }

    /// A copy of the set.
    pub fn duplicate(&self) -> (out: AuthorSet)
        requires
            self.wf(),
        ensures
            out.wf(),
            out.keys() == self.keys(),
            out@ == self@,
    {
        let mut out = AuthorSet::new();
        let mut i: usize = 0;
        proof {
            crate::dump::lemma_put_all_ascending(self.tree.pairs(), 0);
        }
        while i < self.len()
            invariant
                self.wf(),
                out.wf(),
                i <= self.keys().len(),
                out.tree.pairs() == self.tree.pairs().subrange(0, i as int),
            decreases self.keys().len() - i,
        {
            let (key, value) = self.tree.entry(i);
            proof {
                let front = self.tree.pairs().subrange(0, i as int);
                let pairs = self.tree.pairs();
                assert(ascending(front));
                assert forall|j: int| 0 <= j < front.len() implies crate::bytes::lex_lt(
                    (#[trigger] front[j]).0,
                    key@,
                ) by {
                    assert(front[j] == pairs[j]);
                }
                crate::tree::lemma_put_new(front, key@, value@, i as int);
                assert(front.insert(i as int, (key@, value@)) =~= pairs.subrange(0, i + 1));
            }
            out.tree.insert(key, value);
            proof {
                let after = out.tree.pairs();
                assert forall|j: int| 0 <= j < after.len() implies (#[trigger] after[j]).0.len()
                    == 32 by {
                    assert(after[j] == self.tree.pairs()[j]);
                }
            }
            i += 1;
        }
        proof {
            assert(self.tree.pairs().subrange(0, i as int) =~= self.tree.pairs());
            assert(out@ =~= self@);
        }
        out
    }
}

} // verus!
