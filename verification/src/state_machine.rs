//! The state machine: a key-value tree in which each prefix has a list of
//! the authors that may write under it.
use crate::author::{lemma_author_ext, Author};
use crate::bytes::copy_bytes;
use crate::codec::{bincode_list, bincode_read_list, items_view, list_bytes, parse_list};
use crate::crypto::public_key_valid;
use crate::error::Error;
use crate::transaction::{
    key_prefix, result_view, Key, TransactionError, TransactionErrorView, TransactionResult, Value,
};
use crate::tree::{found_view, Tree};
use vstd::prelude::*;
use vstd::slice::slice_subrange;

verus! {

/// The bytes under which the list of the authors of a prefix is stored: the
/// number of authors, then the key of each behind its length.
pub open spec fn acl_bytes(keys: Seq<Seq<u8>>) -> Seq<u8> {
    list_bytes(keys)
}

/// Whether every entry of a list is a public key.
pub open spec fn all_keys(items: Seq<Seq<u8>>) -> bool {
    forall|i: int| 0 <= i < items.len() ==> public_key_valid(#[trigger] items[i])
}

/// The list of authors that `bytes` encode: a list of byte strings that are
/// all public keys.
pub open spec fn parse_acl(bytes: Seq<u8>) -> Option<Seq<Seq<u8>>> {
    match parse_list(bytes) {
        Some(items) => if all_keys(items) {
            Some(items)
        } else {
            None
        },
        None => None,
    }
}

/// A list of public keys is read back from the bytes that it is stored
/// under.
pub proof fn lemma_acl_round_trip(keys: Seq<Seq<u8>>)
    requires
        keys.len() <= u64::MAX,
        all_keys(keys),
        forall|i: int| 0 <= i < keys.len() ==> (#[trigger] keys[i]).len() <= u64::MAX,
    ensures
        parse_acl(acl_bytes(keys)) == Some(keys),
{
    crate::codec::lemma_list_round_trip(keys, Seq::empty());
    assert(list_bytes(keys) + Seq::<u8>::empty() =~= list_bytes(keys));
}

/// The keys of the authors that may write under `prefix`: the list stored
/// under the prefix, or the empty list where none is stored. Nothing where
/// what is stored is no list of authors.
pub open spec fn owners(map: Map<Seq<u8>, Seq<u8>>, prefix: Seq<u8>) -> Option<Seq<Seq<u8>>> {
    if map.dom().contains(prefix) {
        parse_acl(map[prefix])
    } else {
        Some(Seq::empty())
    }
}

/// The keys of a list of authors.
pub open spec fn keys_of(list: Seq<Author>) -> Seq<Seq<u8>> {
    list.map_values(|a: Author| a@)
}

/// The bytes under which a list of authors is stored.
pub fn encode_acl(list: &Vec<Author>) -> (out: Vec<u8>)
    ensures
        out@ == acl_bytes(keys_of(list@)),
{
    let mut items: Vec<Vec<u8>> = Vec::new();
    let mut i: usize = 0;
    while i < list.len()
        invariant
            i <= list@.len(),
            items@.len() == i,
            forall|j: int| 0 <= j < i ==> (#[trigger] items@[j])@ == list@[j]@,
        decreases list@.len() - i,
    {
        items.push(copy_bytes(list[i].as_bytes().as_slice()));
        i += 1;
    }
    assert(items_view(items@) =~= keys_of(list@));
    bincode_list(&items)
}

/// The list of authors that `bytes` encode.
pub fn decode_acl(bytes: &[u8]) -> (out: Option<Vec<Author>>)
    ensures
        out is Some <==> parse_acl(bytes@) is Some,
        out matches Some(list) ==> parse_acl(bytes@) == Some(keys_of(list@)),
{
    let items = match bincode_read_list(bytes) {
        Some(items) => items,
        None => {
            return None;
        },
    };
    let ghost keys = items_view(items@);
    let mut list: Vec<Author> = Vec::new();
    let mut i: usize = 0;
    while i < items.len()
        invariant
            i <= items@.len(),
            keys == items_view(items@),
            parse_list(bytes@) == Some(keys),
            list@.len() == i,
            forall|j: int| 0 <= j < i ==> (#[trigger] list@[j])@ == keys[j],
            forall|j: int| 0 <= j < i ==> public_key_valid(#[trigger] keys[j]),
        decreases items@.len() - i,
    {
        match Author::from_bytes(items[i].as_slice()) {
            Ok(author) => list.push(author),
            Err(_) => {
                assert(keys[i as int] == items@[i as int]@);
                assert(!public_key_valid(keys[i as int]));
                assert(!all_keys(keys));
                return None;
            },
        }
        i += 1;
    }
    assert(keys_of(list@) =~= keys);
    assert(all_keys(keys));
    Some(list)
}

/// Whether the author with the key `key` is on the list.
pub fn on_list(list: &Vec<Author>, author: &Author) -> (found: bool)
    ensures
        found == keys_of(list@).contains(author@),
{
    let ghost keys = keys_of(list@);
    let mut i: usize = 0;
    while i < list.len()
        invariant
            i <= list@.len(),
            keys == keys_of(list@),
            forall|j: int| 0 <= j < i ==> keys[j] != author@,
        decreases list@.len() - i,
    {
        if list[i] == *author {
            assert(keys[i as int] == author@);
            return true;
        }
        proof {
            lemma_author_ext(list@[i as int], *author);
        }
        i += 1;
    }
    false
}

/// The list without the entries for the key `key`.
pub open spec fn without(keys: Seq<Seq<u8>>, key: Seq<u8>) -> Seq<Seq<u8>> {
    keys.filter(other_than(key))
}

/// Whether a key is another than `key`.
pub open spec fn other_than(key: Seq<u8>) -> spec_fn(Seq<u8>) -> bool {
    |k: Seq<u8>| k != key
}

/// What asking to add the author `new` to the list of `prefix`, in the name
/// of `author`, makes of the tree `map`, and how it is answered. The request
/// is refused where the list has members and `author` is none of them.
/// Where `new` is on the list, nothing is changed. Otherwise `new` is put at
/// the end of the list.
pub open spec fn added_author(
    map: Map<Seq<u8>, Seq<u8>>,
    author: Seq<u8>,
    prefix: Seq<u8>,
    new: Seq<u8>,
) -> (Map<Seq<u8>, Seq<u8>>, bool) {
    let list = owners(map, prefix).unwrap();
    if list.len() > 0 && !list.contains(author) {
        (map, false)
    } else if list.len() > 0 && list.contains(new) {
        (map, true)
    } else {
        (map.insert(prefix, acl_bytes(list.push(new))), true)
    }
}

/// What asking to remove the author `rm` from the list of `prefix`, in the
/// name of `author`, makes of the tree `map`, and how it is answered. The
/// request is refused where `author` is not on the list. Where `rm` is not
/// on the list, nothing is changed. Otherwise `rm` is taken off the list,
/// and the list is dropped where that leaves it empty.
pub open spec fn removed_author(
    map: Map<Seq<u8>, Seq<u8>>,
    author: Seq<u8>,
    prefix: Seq<u8>,
    rm: Seq<u8>,
) -> (Map<Seq<u8>, Seq<u8>>, bool) {
    let list = owners(map, prefix).unwrap();
    if !list.contains(author) {
        (map, false)
    } else if !list.contains(rm) {
        (map, true)
    } else if without(list, rm).len() == 0 {
        (map.remove(prefix), true)
    } else {
        (map.insert(prefix, acl_bytes(without(list, rm))), true)
    }
}

/// Whether the answer `r` allows (`Ok`) or refuses for want of permission.
pub open spec fn answer_is(r: TransactionResult, allowed: bool) -> bool {
    if allowed {
        r is Ok
    } else {
        result_view(r) == Err::<(), TransactionErrorView>(TransactionErrorView::Permission)
    }
}

/// The state machine.
#[derive(Debug)]
pub struct StateMachine {
    tree: Tree,
}

impl View for StateMachine {
    type V = Map<Seq<u8>, Seq<u8>>;

    closed spec fn view(&self) -> Map<Seq<u8>, Seq<u8>> {
        self.tree@
    }
}

impl StateMachine {
    /// The invariant of the state machine: that of its tree.
    pub closed spec fn wf(&self) -> bool {
        self.tree.wf()
    }

    /// The entries of the tree, in the order of their keys.
    pub closed spec fn entries(&self) -> Seq<(Seq<u8>, Seq<u8>)> {
        self.tree.pairs()
    }

    /// The entries ascend by their keys, make the map that the machine
    /// stores, and can be written: their number and lengths fit in 64 bits.
    pub proof fn lemma_entries(&self)
        requires
            self.wf(),
        ensures
            crate::tree::ascending(self.entries()),
            crate::tree::map_of(self.entries()) == self@,
            crate::dump::writable(self.entries()),
    {
        self.tree.lemma_sizes();
    }

    /// The state machine on `tree`.
    pub fn from_tree(tree: Tree) -> (out: StateMachine)
        ensures
            out@ == tree@,
            out.entries() == tree.pairs(),
            tree.wf() ==> out.wf(),
    {
        StateMachine { tree }
    }

    /// The tree.
    pub fn tree(&self) -> (out: &Tree)
        ensures
            out@ == self@,
            out.pairs() == self.entries(),
            self.wf() ==> out.wf(),
    {
        &self.tree
    }

    /// Removes every entry.
    pub fn clear(&mut self)
        ensures
            final(self).wf(),
            final(self)@ == Map::<Seq<u8>, Seq<u8>>::empty(),
            final(self).entries() == Seq::<(Seq<u8>, Seq<u8>)>::empty(),
    {
        self.tree.clear();
    }

    /// Reads the tree written at `at` of `bytes` into the tree of the state
    /// machine, entry by entry, and says where it ends.
    pub fn read_tree(&mut self, bytes: &[u8], at: usize) -> (r: Option<usize>)
        requires
            old(self).wf(),
        ensures
            final(self).wf(),
            r is Some <==> crate::dump::parse_tree(bytes@, at as int) is Some,
            r matches Some(end) ==> {
                let parsed = crate::dump::parse_tree(bytes@, at as int).unwrap();
                &&& end == parsed.1
                &&& at <= end <= bytes@.len()
                &&& final(self).entries() == crate::dump::put_all(
                    old(self).entries(),
                    parsed.0,
                    parsed.0.len() as int,
                )
            },
    {
        crate::dump::Importer::read_tree(&mut self.tree, bytes, at)
    }

    /// The list of the authors that may write under `prefix`.
    fn load(&self, prefix: &[u8]) -> (r: Result<Vec<Author>, Error>)
        requires
            self.wf(),
        ensures
            r is Ok <==> owners(self@, prefix@) is Some,
            r matches Ok(list) ==> owners(self@, prefix@) == Some(keys_of(list@)),
            r matches Err(e) ==> e == Error::Serde,
    {
        match self.tree.get(prefix) {
            Some(bytes) => match decode_acl(bytes.as_slice()) {
                Some(list) => Ok(list),
                None => Err(Error::Serde),
            },
            None => {
                let list: Vec<Author> = Vec::new();
                assert(keys_of(list@) =~= Seq::<Seq<u8>>::empty());
                Ok(list)
            },
        }
    }

    /// Asks, in the name of `author`, that `new` may write under `prefix`.
    /// What is stored under the prefix must be a list of authors, or the
    /// request fails.
    pub fn add_author_to_prefix(&mut self, author: &Author, prefix: &[u8], new: Author) -> (r: Result<
        TransactionResult,
        Error,
    >)
        requires
            old(self).wf(),
        ensures
            final(self).wf(),
            r is Ok <==> owners(old(self)@, prefix@) is Some,
            r matches Err(e) ==> e == Error::Serde && *final(self) == *old(self),
            r matches Ok(answer) ==> {
                let expected = added_author(old(self)@, author@, prefix@, new@);
                &&& final(self)@ == expected.0
                &&& answer_is(answer, expected.1)
            },
    {
        let mut list = match self.load(prefix) {
            Ok(list) => list,
            Err(e) => {
                return Err(e);
            },
        };
        if list.len() > 0 {
            if !on_list(&list, author) {
                return Ok(Err(TransactionError::Permission));
            }
            if on_list(&list, &new) {
                return Ok(Ok(()));
            }
        }
        let ghost before = keys_of(list@);
        list.push(new);
        assert(keys_of(list@) =~= before.push(new@));
        let bytes = encode_acl(&list);
        self.tree.insert(prefix, bytes.as_slice());
        Ok(Ok(()))
    }

    /// Asks, in the name of `author`, that `rm` may no longer write under
    /// `prefix`. What is stored under the prefix must be a list of authors,
    /// or the request fails.
    pub fn remove_author_from_prefix(&mut self, author: &Author, prefix: &[u8], rm: Author) -> (r:
        Result<TransactionResult, Error>)
        requires
            old(self).wf(),
        ensures
            final(self).wf(),
            r is Ok <==> owners(old(self)@, prefix@) is Some,
            r matches Err(e) ==> e == Error::Serde && *final(self) == *old(self),
            r matches Ok(answer) ==> {
                let expected = removed_author(old(self)@, author@, prefix@, rm@);
                &&& final(self)@ == expected.0
                &&& answer_is(answer, expected.1)
            },
    {
        let list = match self.load(prefix) {
            Ok(list) => list,
            Err(e) => {
                return Err(e);
            },
        };
        let ghost keys = keys_of(list@);
        let mut kept: Vec<Author> = Vec::new();
        let mut i: usize = 0;
        proof {
            assert(keys.subrange(0, 0) =~= Seq::<Seq<u8>>::empty());
            assert(keys_of(kept@) =~= without(keys.subrange(0, 0), rm@));
        }
        while i < list.len()
            invariant
                i <= list@.len(),
                keys == keys_of(list@),
                keys_of(kept@) == without(keys.subrange(0, i as int), rm@),
            decreases list@.len() - i,
        {
            let ghost front = keys.subrange(0, i as int);
            let ghost before = keys_of(kept@);
            proof {
                assert(keys.subrange(0, i + 1) =~= front.push(keys[i as int]));
                lemma_without_push(front, keys[i as int], rm@);
                lemma_author_ext(list@[i as int], rm);
            }
            if list[i] != rm {
                kept.push(list[i]);
                assert(keys_of(kept@) =~= before.push(keys[i as int]));
            }
            i += 1;
        }
        assert(keys.subrange(0, i as int) =~= keys);
        if !on_list(&list, author) {
            return Ok(Err(TransactionError::Permission));
        }
        if !on_list(&list, &rm) {
            return Ok(Ok(()));
        }
        if kept.len() == 0 {
            self.tree.remove(prefix);
        } else {
            let bytes = encode_acl(&kept);
            self.tree.insert(prefix, bytes.as_slice());
        }
        Ok(Ok(()))
    }
}

/// Taking a key off a list with one more entry.
pub proof fn lemma_without_push(front: Seq<Seq<u8>>, item: Seq<u8>, key: Seq<u8>)
    ensures
        without(front.push(item), key) == (if item != key {
            without(front, key).push(item)
        } else {
            without(front, key)
        }),
{
    front.lemma_filter_push(item, other_than(key));
}


/// What is found under `key`, as an optional value.
pub open spec fn value_view(value: Option<&Value>) -> Option<Seq<u8>> {
    match value {
        Some(v) => Some(v@),
        None => None,
    }
}

/// Whether the answer `r` reports a failed compare-and-swap with the
/// current value `current` and the proposed value `proposed`.
pub open spec fn answer_mismatch(
    r: TransactionResult,
    current: Option<Seq<u8>>,
    proposed: Option<Seq<u8>>,
) -> bool {
    result_view(r) == Err::<(), TransactionErrorView>(
        TransactionErrorView::CompareAndSwap { current, proposed },
    )
}

impl StateMachine {
    /// Stores `value` under `key` in the name of `author`. The author must
    /// be on the list of the key's prefix, or the list must be empty, in
    /// which case the author becomes its first member. Otherwise the write
    /// is refused for want of permission, and nothing is changed.
    pub fn insert(&mut self, author: &Author, key: &Key, value: &Value) -> (r: Result<
        TransactionResult,
        Error,
    >)
        requires
            old(self).wf(),
        ensures
            final(self).wf(),
            r is Ok <==> owners(old(self)@, key_prefix(key@)) is Some,
            r matches Err(e) ==> e == Error::Serde && *final(self) == *old(self),
            r matches Ok(answer) ==> {
                let listed = added_author(old(self)@, author@, key_prefix(key@), author@);
                &&& answer_is(answer, listed.1)
                &&& final(self)@ == (if listed.1 {
                    listed.0.insert(key@, value@)
                } else {
                    old(self)@
                })
            },
    {
        match self.add_author_to_prefix(author, key.prefix(), *author) {
            Err(e) => Err(e),
            Ok(Ok(())) => {
                self.tree.insert(key.as_ref(), value.as_ref());
                Ok(Ok(()))
            },
            Ok(Err(e)) => Ok(Err(e)),
        }
    }

    /// Removes what is stored under `key` in the name of `author`, who must
    /// have permission as for a write.
    pub fn remove(&mut self, author: &Author, key: &Key) -> (r: Result<TransactionResult, Error>)
        requires
            old(self).wf(),
        ensures
            final(self).wf(),
            r is Ok <==> owners(old(self)@, key_prefix(key@)) is Some,
            r matches Err(e) ==> e == Error::Serde && *final(self) == *old(self),
            r matches Ok(answer) ==> {
                let listed = added_author(old(self)@, author@, key_prefix(key@), author@);
                &&& answer_is(answer, listed.1)
                &&& final(self)@ == (if listed.1 {
                    listed.0.remove(key@)
                } else {
                    old(self)@
                })
            },
    {
        match self.add_author_to_prefix(author, key.prefix(), *author) {
            Err(e) => Err(e),
            Ok(Ok(())) => {
                self.tree.remove(key.as_ref());
                Ok(Ok(()))
            },
            Ok(Err(e)) => Ok(Err(e)),
        }
    }

    /// Stores `proposed` under `key` (or removes what is there, for no
    /// `proposed`) in the name of `author`, who must have permission as for
    /// a write, if what is there is `expected` (or nothing, for no
    /// `expected`). Otherwise the answer reports what is there and what was
    /// proposed.
    pub fn compare_and_swap(
        &mut self,
        author: &Author,
        key: &Key,
        expected: Option<&Value>,
        proposed: Option<&Value>,
    ) -> (r: Result<TransactionResult, Error>)
        requires
            old(self).wf(),
        ensures
            final(self).wf(),
            r is Ok <==> owners(old(self)@, key_prefix(key@)) is Some,
            r matches Err(e) ==> e == Error::Serde && *final(self) == *old(self),
            r matches Ok(answer) ==> {
                let listed = added_author(old(self)@, author@, key_prefix(key@), author@);
                let current = found_view(listed.0, key@);
                if !listed.1 {
                    answer_is(answer, false) && final(self)@ == old(self)@
                } else if current == value_view(expected) {
                    answer is Ok && final(self)@ == (match proposed {
                        Some(v) => listed.0.insert(key@, v@),
                        None => listed.0.remove(key@),
                    })
                } else {
                    answer_mismatch(answer, current, value_view(proposed)) && final(self)@
                        == listed.0
                }
            },
    {
        match self.add_author_to_prefix(author, key.prefix(), *author) {
            Err(e) => Err(e),
            Ok(Ok(())) => {
                let want: Option<&[u8]> = match expected {
                    Some(v) => Some(v.as_ref()),
                    None => None,
                };
                let give: Option<&[u8]> = match proposed {
                    Some(v) => Some(v.as_ref()),
                    None => None,
                };
                match self.tree.compare_and_swap(key.as_ref(), want, give) {
                    Ok(()) => Ok(Ok(())),
                    Err((current, given)) => {
                        let current = match current {
                            Some(v) => Some(Value::new(v.as_slice())),
                            None => None,
                        };
                        let given = match given {
                            Some(v) => Some(Value::new(v.as_slice())),
                            None => None,
                        };
                        Ok(Err(TransactionError::CompareAndSwap { current, proposed: given }))
                    },
                }
            },
            Ok(Err(e)) => Ok(Err(e)),
        }
    }
}

/// A write in the name of an author who is not on the list of a prefix
/// that has members is refused, and changes neither the values nor the
/// list.
pub proof fn lemma_permission(map: Map<Seq<u8>, Seq<u8>>, author: Seq<u8>, prefix: Seq<u8>)
    requires
        owners(map, prefix) matches Some(list) && list.len() > 0 && !list.contains(author),
    ensures
        added_author(map, author, prefix, author) == (map, false),
        owners(added_author(map, author, prefix, author).0, prefix) == owners(map, prefix),
{
}

} // verus!
