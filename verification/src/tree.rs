//! The key-value tree: byte strings under byte strings, kept in the order
//! of the keys.
use crate::bytes::{
    bytes_equal, compare_bytes, copy_bytes, lemma_lex_asymmetric, lemma_lex_transitive, lex_lt,
    Order,
};
use vstd::prelude::*;

verus! {

/// The entries of a tree as byte strings.
pub open spec fn pairs_view(entries: Seq<(Vec<u8>, Vec<u8>)>) -> Seq<(Seq<u8>, Seq<u8>)> {
    entries.map_values(|e: (Vec<u8>, Vec<u8>)| (e.0@, e.1@))
}

/// Whether the keys of the entries ascend strictly.
pub open spec fn ascending(pairs: Seq<(Seq<u8>, Seq<u8>)>) -> bool {
    forall|i: int, j: int|
        0 <= i < j < pairs.len() ==> lex_lt((#[trigger] pairs[i]).0, (#[trigger] pairs[j]).0)
}

/// Whether the entries hold the key `key`.
pub open spec fn has_key(pairs: Seq<(Seq<u8>, Seq<u8>)>, key: Seq<u8>) -> bool {
    exists|i: int| 0 <= i < pairs.len() && (#[trigger] pairs[i]).0 == key
}

/// The place of the key `key` among the entries.
pub open spec fn place_of(pairs: Seq<(Seq<u8>, Seq<u8>)>, key: Seq<u8>) -> int {
    choose|i: int| 0 <= i < pairs.len() && (#[trigger] pairs[i]).0 == key
}

/// The value under the key `key`.
pub open spec fn lookup(pairs: Seq<(Seq<u8>, Seq<u8>)>, key: Seq<u8>) -> Option<Seq<u8>> {
    if has_key(pairs, key) {
        Some(pairs[place_of(pairs, key)].1)
    } else {
        None
    }
}

/// The map that the entries make: each key to the value of its entry.
pub open spec fn map_of(pairs: Seq<(Seq<u8>, Seq<u8>)>) -> Map<Seq<u8>, Seq<u8>> {
    Map::new(|k: Seq<u8>| has_key(pairs, k), |k: Seq<u8>| pairs[place_of(pairs, k)].1)
}

/// Among ascending entries a key has one place.
pub proof fn lemma_place(pairs: Seq<(Seq<u8>, Seq<u8>)>, i: int)
    requires
        ascending(pairs),
        0 <= i < pairs.len(),
    ensures
        has_key(pairs, pairs[i].0),
        place_of(pairs, pairs[i].0) == i,
        lookup(pairs, pairs[i].0) == Some(pairs[i].1),
{
    let j = place_of(pairs, pairs[i].0);
    if j < i {
        lemma_lex_asymmetric(pairs[j].0, pairs[i].0);
    } else if i < j {
        lemma_lex_asymmetric(pairs[i].0, pairs[j].0);
    }
}

/// Ascending entries are as many as the keys of the map that they make.
pub proof fn lemma_pairs_count(pairs: Seq<(Seq<u8>, Seq<u8>)>)
    requires
        ascending(pairs),
    ensures
        map_of(pairs).dom().finite(),
        map_of(pairs).dom().len() == pairs.len(),
{
    let keys = pairs.map_values(|p: (Seq<u8>, Seq<u8>)| p.0);
    assert forall|i: int, j: int| 0 <= i < keys.len() && 0 <= j < keys.len() && i != j implies keys[i]
        != keys[j] by {
        if i < j {
            assert(lex_lt(pairs[i].0, pairs[j].0));
            crate::bytes::lemma_lex_asymmetric(pairs[i].0, pairs[j].0);
        } else {
            assert(lex_lt(pairs[j].0, pairs[i].0));
            crate::bytes::lemma_lex_asymmetric(pairs[j].0, pairs[i].0);
        }
    }
    assert forall|key: Seq<u8>| keys.to_set().contains(key) <==> map_of(pairs).dom().contains(
        key,
    ) by {
        if keys.to_set().contains(key) {
            let i = choose|i: int| 0 <= i < keys.len() && keys[i] == key;
            assert(pairs[i].0 == key);
        }
        if map_of(pairs).dom().contains(key) {
            let i = choose|i: int| 0 <= i < pairs.len() && (#[trigger] pairs[i]).0 == key;
            assert(keys[i] == key);
            assert(keys.contains(key));
        }
    }
    assert(keys.to_set() =~= map_of(pairs).dom());
    vstd::seq_lib::seq_to_set_is_finite(keys);
    keys.unique_seq_to_set();
}

/// The key-value tree.
#[derive(Debug)]
pub struct Tree {
    entries: Vec<(Vec<u8>, Vec<u8>)>,
}

impl View for Tree {
    type V = Map<Seq<u8>, Seq<u8>>;

    open spec fn view(&self) -> Map<Seq<u8>, Seq<u8>> {
        map_of(self.pairs())
    }
}

impl Tree {
    /// The entries, in the order of their keys.
    pub closed spec fn pairs(&self) -> Seq<(Seq<u8>, Seq<u8>)> {
        pairs_view(self.entries@)
    }

    /// The entries of a tree are held in memory: their number and the
    /// length of each key and value fit in 64 bits.
    pub proof fn lemma_sizes(&self)
        ensures
            self.pairs().len() <= u64::MAX,
            forall|i: int|
                0 <= i < self.pairs().len() ==> (#[trigger] self.pairs()[i]).0.len() <= u64::MAX
                    && self.pairs()[i].1.len() <= u64::MAX,
    {
        assert(self.entries.len() == self.entries@.len());
        assert forall|i: int| 0 <= i < self.pairs().len() implies (#[trigger] self.pairs()[i]).0.len()
            <= u64::MAX && self.pairs()[i].1.len() <= u64::MAX by {
            let entry = self.entries@[i];
            assert(entry.0.len() == self.pairs()[i].0.len());
            assert(entry.1.len() == self.pairs()[i].1.len());
        }
    }

    /// The invariant of the tree: the keys ascend strictly, so that none
    /// occurs twice.
    pub open spec fn wf(&self) -> bool {
        ascending(self.pairs())
    }

    /// The empty tree.
    pub fn new() -> (tree: Tree)
        ensures
            tree.wf(),
            tree.pairs() == Seq::<(Seq<u8>, Seq<u8>)>::empty(),
            tree@ == Map::<Seq<u8>, Seq<u8>>::empty(),
    {
        let tree = Tree { entries: Vec::new() };
        assert(tree.pairs() =~= Seq::<(Seq<u8>, Seq<u8>)>::empty());
        assert(tree@ =~= Map::<Seq<u8>, Seq<u8>>::empty());
        tree
    }

    /// The number of entries.
    pub fn len(&self) -> (n: usize)
        ensures
            n == self.pairs().len(),
    {
        self.entries.len()
    }

    /// Whether the tree is empty.
    pub fn is_empty(&self) -> (empty: bool)
        ensures
            empty == (self.pairs().len() == 0),
    {
        self.entries.len() == 0
    }

    /// The place of the first entry whose key is not before `key`, and
    /// whether that entry has the key `key`.
    fn search(&self, key: &[u8]) -> (out: (usize, bool))
        requires
            self.wf(),
        ensures
            out.0 <= self.pairs().len(),
            forall|i: int| 0 <= i < out.0 ==> lex_lt((#[trigger] self.pairs()[i]).0, key@),
            out.1 ==> out.0 < self.pairs().len() && self.pairs()[out.0 as int].0 == key@,
            !out.1 ==> forall|i: int|
                out.0 <= i < self.pairs().len() ==> lex_lt(key@, (#[trigger] self.pairs()[i]).0),
            out.1 == has_key(self.pairs(), key@),
            out.1 ==> place_of(self.pairs(), key@) == out.0,
    {
        let ghost pairs = self.pairs();
        let mut i: usize = 0;
        while i < self.entries.len()
            invariant
                self.wf(),
                pairs == self.pairs(),
                i <= pairs.len(),
                forall|j: int| 0 <= j < i ==> lex_lt((#[trigger] pairs[j]).0, key@),
            decreases pairs.len() - i,
        {
            match compare_bytes(self.entries[i].0.as_slice(), key) {
                Order::Less => {},
                Order::Equal => {
                    proof {
                        lemma_place(pairs, i as int);
                    }
                    return (i, true);
                },
                Order::Greater => {
                    proof {
                        assert forall|j: int| i <= j < pairs.len() implies lex_lt(
                            key@,
                            (#[trigger] pairs[j]).0,
                        ) by {
                            if j > i {
                                lemma_lex_transitive(key@, pairs[i as int].0, pairs[j].0);
                            }
                        }
                        lemma_absent(pairs, key@, i as int);
                    }
                    return (i, false);
                },
            }
            i += 1;
        }
        proof {
            lemma_absent(pairs, key@, i as int);
        }
        (i, false)
    }

    /// The value under `key`.
    pub fn get(&self, key: &[u8]) -> (out: Option<Vec<u8>>)
        requires
            self.wf(),
        ensures
            out is Some <==> self@.dom().contains(key@),
            out matches Some(v) ==> v@ == self@[key@],
    {
        let (i, found) = self.search(key);
        if found {
            Some(copy_bytes(self.entries[i].1.as_slice()))
        } else {
            None
        }
    }

    /// Whether there is a value under `key`.
    pub fn contains_key(&self, key: &[u8]) -> (out: bool)
        requires
            self.wf(),
        ensures
            out == self@.dom().contains(key@),
    {
        self.search(key).1
    }

    /// Puts `value` under `key`, in place of any value there.
    pub fn insert(&mut self, key: &[u8], value: &[u8])
        requires
            old(self).wf(),
        ensures
            final(self).wf(),
            final(self)@ == old(self)@.insert(key@, value@),
            final(self).pairs() == put(old(self).pairs(), key@, value@),
    {
        let (i, found) = self.search(key);
        let ghost before = self.pairs();
        if found {
            self.entries[i].1 = copy_bytes(value);
            proof {
                assert(self.pairs() =~= before.update(i as int, (key@, value@)));
                lemma_put_found(before, key@, value@, i as int);
            }
        } else {
            self.entries.insert(i, (copy_bytes(key), copy_bytes(value)));
            proof {
                assert(self.pairs() =~= before.insert(i as int, (key@, value@)));
                lemma_put_new(before, key@, value@, i as int);
            }
        }
        proof {
            lemma_put(before, key@, value@);
            assert(self@ =~= old(self)@.insert(key@, value@)) by {
                assert forall|k: Seq<u8>| #[trigger]
                    self@.dom().contains(k) <==> old(self)@.insert(key@, value@).dom().contains(
                        k,
                    ) by {}
            }
        }
    }

    /// Removes the value under `key`, if there is one.
    pub fn remove(&mut self, key: &[u8])
        requires
            old(self).wf(),
        ensures
            final(self).wf(),
            final(self)@ == old(self)@.remove(key@),
    {
        let (i, found) = self.search(key);
        let ghost before = self.pairs();
        if found {
            self.entries.remove(i);
            proof {
                assert(self.pairs() =~= before.remove(i as int));
                lemma_cut(before, key@, i as int);
            }
        }
        proof {
            assert(self@ =~= old(self)@.remove(key@)) by {
                assert forall|k: Seq<u8>| #[trigger]
                    self@.dom().contains(k) <==> old(self)@.remove(key@).dom().contains(k) by {}
            }
        }
    }

    /// Puts `proposed` under `key` (or removes the entry, for no `proposed`)
    /// if what is there is `expected` (or nothing, for no `expected`).
    /// Otherwise nothing is changed, and what is there comes back with
    /// what was proposed.
    pub fn compare_and_swap(
        &mut self,
        key: &[u8],
        expected: Option<&[u8]>,
        proposed: Option<&[u8]>,
    ) -> (r: Result<(), (Option<Vec<u8>>, Option<Vec<u8>>)>)
        requires
            old(self).wf(),
        ensures
            final(self).wf(),
            r is Ok <==> found_view(old(self)@, key@) == slice_option(expected),
            r is Ok ==> final(self)@ == (match proposed {
                Some(v) => old(self)@.insert(key@, v@),
                None => old(self)@.remove(key@),
            }),
            r matches Err(e) ==> {
                &&& *final(self) == *old(self)
                &&& vec_option(e.0) == found_view(old(self)@, key@)
                &&& vec_option(e.1) == slice_option(proposed)
            },
    {
        let current = self.get(key);
        let same = match (&current, expected) {
            (None, None) => true,
            (Some(a), Some(b)) => bytes_equal(a.as_slice(), b),
            _ => false,
        };
        if same {
            match proposed {
                Some(v) => self.insert(key, v),
                None => self.remove(key),
            }
            Ok(())
        } else {
            let given = match proposed {
                Some(v) => Some(copy_bytes(v)),
                None => None,
            };
            Err((current, given))
        }
    }

    /// Removes every entry.
    pub fn clear(&mut self)
        ensures
            final(self).wf(),
            final(self).pairs() == Seq::<(Seq<u8>, Seq<u8>)>::empty(),
            final(self)@ == Map::<Seq<u8>, Seq<u8>>::empty(),
    {
        self.entries = Vec::new();
        assert(self.pairs() =~= Seq::<(Seq<u8>, Seq<u8>)>::empty());
        assert(self@ =~= Map::<Seq<u8>, Seq<u8>>::empty());
    }

    /// The key and the value of the entry at place `i`.
    pub fn entry(&self, i: usize) -> (out: (&[u8], &[u8]))
        requires
            i < self.pairs().len(),
        ensures
            out.0@ == self.pairs()[i as int].0,
            out.1@ == self.pairs()[i as int].1,
    {
        (self.entries[i].0.as_slice(), self.entries[i].1.as_slice())
    }
}

/// What is found under `key` in a tree.
pub open spec fn found_view(map: Map<Seq<u8>, Seq<u8>>, key: Seq<u8>) -> Option<Seq<u8>> {
    if map.dom().contains(key) {
        Some(map[key])
    } else {
        None
    }
}

/// The bytes of an optional byte string.
pub open spec fn slice_option(value: Option<&[u8]>) -> Option<Seq<u8>> {
    match value {
        Some(v) => Some(v@),
        None => None,
    }
}

/// The bytes of an optional byte string.
pub open spec fn vec_option(value: Option<Vec<u8>>) -> Option<Seq<u8>> {
    match value {
        Some(v) => Some(v@),
        None => None,
    }
}

/// The entries with `value` under `key`: in place of the value there, or at
/// the place that keeps the keys ascending.
pub open spec fn put(pairs: Seq<(Seq<u8>, Seq<u8>)>, key: Seq<u8>, value: Seq<u8>) -> Seq<
    (Seq<u8>, Seq<u8>),
> {
    if has_key(pairs, key) {
        pairs.update(place_of(pairs, key), (key, value))
    } else {
        pairs.insert(below(pairs, key, pairs.len() as int), (key, value))
    }
}

/// How many of the first `n` entries have a key before `key`.
pub open spec fn below(pairs: Seq<(Seq<u8>, Seq<u8>)>, key: Seq<u8>, n: int) -> int
    decreases n,
{
    if n <= 0 {
        0
    } else {
        below(pairs, key, n - 1) + (if lex_lt(pairs[n - 1].0, key) {
            1int
        } else {
            0int
        })
    }
}

/// A key that lies between the entries before place `i` and those from it
/// on is not among the entries.
pub proof fn lemma_absent(pairs: Seq<(Seq<u8>, Seq<u8>)>, key: Seq<u8>, i: int)
    requires
        0 <= i <= pairs.len(),
        forall|j: int| 0 <= j < i ==> lex_lt((#[trigger] pairs[j]).0, key),
        forall|j: int| i <= j < pairs.len() ==> lex_lt(key, (#[trigger] pairs[j]).0),
    ensures
        !has_key(pairs, key),
{
    if has_key(pairs, key) {
        let j = place_of(pairs, key);
        if j < i {
            lemma_lex_asymmetric(pairs[j].0, key);
        } else {
            lemma_lex_asymmetric(key, pairs[j].0);
        }
    }
}

/// Among ascending entries, the entries with a key before `key` are those
/// before its place.
pub proof fn lemma_below(pairs: Seq<(Seq<u8>, Seq<u8>)>, key: Seq<u8>, i: int, n: int)
    requires
        0 <= i <= pairs.len(),
        0 <= n <= pairs.len(),
        forall|j: int| 0 <= j < i ==> lex_lt((#[trigger] pairs[j]).0, key),
        forall|j: int| i <= j < pairs.len() ==> !lex_lt((#[trigger] pairs[j]).0, key),
    ensures
        below(pairs, key, n) == (if n <= i {
            n
        } else {
            i
        }),
    decreases n,
{
    if n > 0 {
        lemma_below(pairs, key, i, n - 1);
    }
}

/// Replacing the value at the place of a key keeps the keys ascending and
/// changes the value under that key alone.
pub proof fn lemma_put_found(pairs: Seq<(Seq<u8>, Seq<u8>)>, key: Seq<u8>, value: Seq<u8>, i: int)
    requires
        ascending(pairs),
        0 <= i < pairs.len(),
        pairs[i].0 == key,
    ensures
        put(pairs, key, value) == pairs.update(i, (key, value)),
{
    lemma_place(pairs, i);
}

/// Inserting a new key at its place is putting it.
pub proof fn lemma_put_new(pairs: Seq<(Seq<u8>, Seq<u8>)>, key: Seq<u8>, value: Seq<u8>, i: int)
    requires
        ascending(pairs),
        0 <= i <= pairs.len(),
        forall|j: int| 0 <= j < i ==> lex_lt((#[trigger] pairs[j]).0, key),
        forall|j: int| i <= j < pairs.len() ==> lex_lt(key, (#[trigger] pairs[j]).0),
    ensures
        put(pairs, key, value) == pairs.insert(i, (key, value)),
{
    lemma_absent(pairs, key, i);
    assert forall|j: int| i <= j < pairs.len() implies !lex_lt((#[trigger] pairs[j]).0, key) by {
        lemma_lex_asymmetric(key, pairs[j].0);
    }
    lemma_below(pairs, key, i, pairs.len() as int);
}

/// Putting a value keeps the keys ascending, and changes what is found
/// under that key alone.
pub proof fn lemma_put(pairs: Seq<(Seq<u8>, Seq<u8>)>, key: Seq<u8>, value: Seq<u8>)
    requires
        ascending(pairs),
    ensures
        ascending(put(pairs, key, value)),
        has_key(put(pairs, key, value), key),
        lookup(put(pairs, key, value), key) == Some(value),
        forall|k: Seq<u8>|
            k != key ==> (#[trigger] has_key(put(pairs, key, value), k) == has_key(pairs, k)),
        forall|k: Seq<u8>|
            k != key ==> (#[trigger] lookup(put(pairs, key, value), k)) == lookup(pairs, k),
{
    let after = put(pairs, key, value);
    if has_key(pairs, key) {
        let i = place_of(pairs, key);
        assert forall|a: int, b: int| 0 <= a < b < after.len() implies lex_lt(
            (#[trigger] after[a]).0,
            (#[trigger] after[b]).0,
        ) by {
            assert(after[a].0 == pairs[a].0);
            assert(after[b].0 == pairs[b].0);
        }
        lemma_place(after, i);
        assert forall|k: Seq<u8>| k != key implies (#[trigger] has_key(after, k) == has_key(
            pairs,
            k,
        )) && lookup(after, k) == lookup(pairs, k) by {
            if has_key(pairs, k) {
                let j = place_of(pairs, k);
                assert(after[j] == pairs[j]);
                lemma_place(after, j);
                lemma_place(pairs, j);
            }
            if has_key(after, k) {
                let j = place_of(after, k);
                assert(after[j] == pairs[j]);
                lemma_place(pairs, j);
                lemma_place(after, j);
            }
        }
    } else {
        let i = below(pairs, key, pairs.len() as int);
        lemma_below_splits(pairs, key, pairs.len() as int);
        assert forall|a: int, b: int| 0 <= a < b < after.len() implies lex_lt(
            (#[trigger] after[a]).0,
            (#[trigger] after[b]).0,
        ) by {
            let a0 = if a < i {
                a
            } else {
                a - 1
            };
            let b0 = if b < i {
                b
            } else {
                b - 1
            };
            if a != i && b != i {
                assert(after[a] == pairs[a0] && after[b] == pairs[b0]);
            } else if a == i {
                assert(after[b] == pairs[b0]);
            } else {
                assert(after[a] == pairs[a0]);
            }
        }
        lemma_place(after, i);
        assert forall|k: Seq<u8>| k != key implies (#[trigger] has_key(after, k) == has_key(
            pairs,
            k,
        )) && lookup(after, k) == lookup(pairs, k) by {
            if has_key(pairs, k) {
                let j = place_of(pairs, k);
                let j2 = if j < i {
                    j
                } else {
                    j + 1
                };
                assert(after[j2] == pairs[j]);
                lemma_place(after, j2);
                lemma_place(pairs, j);
            }
            if has_key(after, k) {
                let j = place_of(after, k);
                let j0 = if j < i {
                    j
                } else {
                    j - 1
                };
                assert(after[j] == pairs[j0]);
                lemma_place(pairs, j0);
                lemma_place(after, j);
            }
        }
    }
}

/// Among ascending entries that lack `key`, those with a key before `key`
/// come first, and their number is the place at which `key` belongs.
pub proof fn lemma_below_splits(pairs: Seq<(Seq<u8>, Seq<u8>)>, key: Seq<u8>, n: int)
    requires
        ascending(pairs),
        !has_key(pairs, key),
        0 <= n <= pairs.len(),
    ensures
        0 <= below(pairs, key, n) <= n,
        forall|j: int| 0 <= j < below(pairs, key, n) ==> lex_lt((#[trigger] pairs[j]).0, key),
        forall|j: int| below(pairs, key, n) <= j < n ==> lex_lt(key, (#[trigger] pairs[j]).0),
    decreases n,
{
    if n > 0 {
        lemma_below_splits(pairs, key, n - 1);
        let b = below(pairs, key, n - 1);
        crate::bytes::lemma_lex_total(pairs[n - 1].0, key);
        assert(pairs[n - 1].0 != key);
        if lex_lt(pairs[n - 1].0, key) {
            if b < n - 1 {
                lemma_lex_transitive(key, pairs[b].0, pairs[n - 1].0);
                lemma_lex_asymmetric(key, pairs[n - 1].0);
            }
        }
    }
}

/// Cutting out the entry of a key keeps the keys ascending and removes that
/// key alone.
pub proof fn lemma_cut(pairs: Seq<(Seq<u8>, Seq<u8>)>, key: Seq<u8>, i: int)
    requires
        ascending(pairs),
        0 <= i < pairs.len(),
        pairs[i].0 == key,
    ensures
        ascending(pairs.remove(i)),
        !has_key(pairs.remove(i), key),
        forall|k: Seq<u8>| k != key
            ==> (#[trigger] has_key(pairs.remove(i), k) == has_key(pairs, k)),
        forall|k: Seq<u8>| k != key ==> (#[trigger] lookup(pairs.remove(i), k)) == lookup(pairs, k),
{
    let after = pairs.remove(i);
    assert forall|a: int, b: int| 0 <= a < b < after.len() implies lex_lt(
        (#[trigger] after[a]).0,
        (#[trigger] after[b]).0,
    ) by {
        let a0 = if a < i {
            a
        } else {
            a + 1
        };
        let b0 = if b < i {
            b
        } else {
            b + 1
        };
        assert(after[a] == pairs[a0] && after[b] == pairs[b0]);
    }
    if has_key(after, key) {
        let j = place_of(after, key);
        let j0 = if j < i {
            j
        } else {
            j + 1
        };
        assert(after[j] == pairs[j0]);
        lemma_place(pairs, j0);
        lemma_place(pairs, i);
    }
    assert forall|k: Seq<u8>| k != key implies (#[trigger] has_key(after, k) == has_key(pairs, k))
        && lookup(after, k) == lookup(pairs, k) by {
        if has_key(pairs, k) {
            let j = place_of(pairs, k);
            let j2 = if j < i {
                j
            } else {
                j - 1
            };
            assert(after[j2] == pairs[j]);
            lemma_place(after, j2);
            lemma_place(pairs, j);
        }
        if has_key(after, k) {
            let j = place_of(after, k);
            let j0 = if j < i {
                j
            } else {
                j + 1
            };
            assert(after[j] == pairs[j0]);
            lemma_place(pairs, j0);
            lemma_place(after, j);
        }
    }
}

} // verus!
