//! The byte encodings of plain values, taken on trust from the `bincode`
//! crate. Nothing in this file is proved: each function states the bytes
//! that `bincode` is documented to write or read with its default settings,
//! which write integers in a fixed width, least significant byte first.
use crate::bytes::{u32_le, u64_le};
use vstd::prelude::*;

verus! {

/// A byte string behind its length, the length as eight bytes, least
/// significant first.
pub open spec fn length_prefixed(bytes: Seq<u8>) -> Seq<u8> {
    u64_le(bytes.len() as u64) + bytes
}

/// An optional byte string: a zero byte for none, or a one byte and the
/// string behind its length.
pub open spec fn optional_bytes(value: Option<Seq<u8>>) -> Seq<u8> {
    match value {
        None => seq![0u8],
        Some(bytes) => seq![1u8] + length_prefixed(bytes),
    }
}

/// The first `n` of the byte strings `items`, each behind its length.
pub open spec fn list_items(items: Seq<Seq<u8>>, n: int) -> Seq<u8>
    decreases n,
{
    if n <= 0 {
        Seq::empty()
    } else {
        list_items(items, n - 1) + length_prefixed(items[n - 1])
    }
}

/// A list of byte strings: their number as eight bytes, least significant
/// first, then each behind its length.
pub open spec fn list_bytes(items: Seq<Seq<u8>>) -> Seq<u8> {
    u64_le(items.len() as u64) + list_items(items, items.len() as int)
}

/// The `count` byte strings from `at` on, each behind its length; nothing
/// where the bytes end early.
pub open spec fn parse_items(bytes: Seq<u8>, at: int, count: nat) -> Option<Seq<Seq<u8>>>
    decreases count,
{
    if count == 0 {
        Some(Seq::empty())
    } else if 0 <= at && at + 8 <= bytes.len() {
        let n = crate::bytes::u64_from_le(bytes.subrange(at, at + 8)) as int;
        if at + 8 + n <= bytes.len() {
            match parse_items(bytes, at + 8 + n, (count - 1) as nat) {
                Some(rest) => Some(seq![bytes.subrange(at + 8, at + 8 + n)] + rest),
                None => None,
            }
        } else {
            None
        }
    } else {
        None
    }
}

/// The list of byte strings that `bytes` begin with; nothing where the
/// bytes end early. What follows the list is not read.
pub open spec fn parse_list(bytes: Seq<u8>) -> Option<Seq<Seq<u8>>> {
    if bytes.len() >= 8 {
        parse_items(bytes, 8, crate::bytes::u64_from_le(bytes.subrange(0, 8)) as nat)
    } else {
        None
    }
}

/// The byte strings of `items` from the one at `k` on, each behind its
/// length.
pub open spec fn list_tail(items: Seq<Seq<u8>>, k: int) -> Seq<u8>
    decreases items.len() - k,
{
    if k < 0 || k >= items.len() {
        Seq::empty()
    } else {
        length_prefixed(items[k]) + list_tail(items, k + 1)
    }
}

/// The first `n` byte strings and those from `n` on make the whole list.
pub proof fn lemma_list_split(items: Seq<Seq<u8>>, n: int)
    requires
        0 <= n <= items.len(),
    ensures
        list_items(items, n) + list_tail(items, n) == list_items(items, items.len() as int),
    decreases items.len() - n,
{
    if n < items.len() {
        lemma_list_split(items, n + 1);
        assert(list_items(items, n + 1) == list_items(items, n) + length_prefixed(items[n]));
        assert((list_items(items, n) + length_prefixed(items[n])) + list_tail(items, n + 1)
            =~= list_items(items, n) + (length_prefixed(items[n]) + list_tail(items, n + 1)));
    } else {
        assert(list_items(items, n) + list_tail(items, n) =~= list_items(items, n));
    }
}

/// Bytes that hold, from `at` on, the byte strings of `items` from the one
/// at `k` on, each behind its length, are read back as those byte strings,
/// whatever follows them.
pub proof fn lemma_parse_tail(bytes: Seq<u8>, at: int, items: Seq<Seq<u8>>, k: int)
    requires
        0 <= k <= items.len(),
        0 <= at,
        at + list_tail(items, k).len() <= bytes.len(),
        bytes.subrange(at, at + list_tail(items, k).len()) == list_tail(items, k),
        forall|i: int| 0 <= i < items.len() ==> (#[trigger] items[i]).len() <= u64::MAX,
    ensures
        parse_items(bytes, at, (items.len() - k) as nat) == Some(
            items.subrange(k, items.len() as int),
        ),
    decreases items.len() - k,
{
    let tail = list_tail(items, k);
    if k == items.len() {
        assert(items.subrange(k, items.len() as int) =~= Seq::<Seq<u8>>::empty());
    } else {
        let item = items[k];
        let rest = list_tail(items, k + 1);
        let n = item.len() as int;
        assert(tail == (u64_le(n as u64) + item) + rest);
        assert(tail.len() == 8 + n + rest.len());
        let w = bytes.subrange(at, at + tail.len());
        assert(bytes.subrange(at, at + 8) =~= w.subrange(0, 8));
        assert(tail.subrange(0, 8) =~= u64_le(n as u64));
        crate::bytes::lemma_join_split(n as u64);
        assert(crate::bytes::u64_from_le(bytes.subrange(at, at + 8)) == n);
        assert(bytes.subrange(at + 8, at + 8 + n) =~= w.subrange(8, 8 + n));
        assert(tail.subrange(8, 8 + n) =~= item);
        assert(bytes.subrange(at + 8 + n, at + 8 + n + rest.len()) =~= w.subrange(
            8 + n,
            8 + n + rest.len(),
        ));
        assert(tail.subrange(8 + n, 8 + n + rest.len()) =~= rest);
        lemma_parse_tail(bytes, at + 8 + n, items, k + 1);
        assert(seq![item] + items.subrange(k + 1, items.len() as int) =~= items.subrange(
            k,
            items.len() as int,
        ));
    }
}

/// A list of byte strings is read back from its bytes, whatever follows
/// them: reading undoes writing, for a list whose length and whose byte
/// strings' lengths fit in 64 bits.
pub proof fn lemma_list_round_trip(items: Seq<Seq<u8>>, more: Seq<u8>)
    requires
        items.len() <= u64::MAX,
        forall|i: int| 0 <= i < items.len() ==> (#[trigger] items[i]).len() <= u64::MAX,
    ensures
        parse_list(list_bytes(items) + more) == Some(items),
{
    let bytes = list_bytes(items) + more;
    let body = list_items(items, items.len() as int);
    lemma_list_split(items, 0);
    assert(list_items(items, 0) + list_tail(items, 0) =~= list_tail(items, 0));
    assert(bytes.subrange(0, 8) =~= u64_le(items.len() as u64));
    crate::bytes::lemma_join_split(items.len() as u64);
    assert(bytes.subrange(8, 8 + body.len() as int) =~= body);
    lemma_parse_tail(bytes, 8, items, 0);
    assert(items.subrange(0, items.len() as int) =~= items);
}

/// The byte strings of a list.
pub open spec fn items_view(items: Seq<Vec<u8>>) -> Seq<Seq<u8>> {
    items.map_values(|item: Vec<u8>| item@)
}

/// The bytes of an optional byte string.
pub open spec fn option_slice_view(value: Option<&[u8]>) -> Option<Seq<u8>> {
    match value {
        Some(v) => Some(v@),
        None => None,
    }
}

/// `bincode::serialize` of a `u32`: its four bytes, least significant
/// first.
#[verifier::external_body]
pub(crate) fn bincode_u32(x: u32) -> (out: Vec<u8>)
    ensures
        out@ == u32_le(x),
{
    bincode::serialize(&x).unwrap_or_default()
}

/// `bincode::serialize` of a `u64`: its eight bytes, least significant
/// first.
#[verifier::external_body]
pub(crate) fn bincode_u64(x: u64) -> (out: Vec<u8>)
    ensures
        out@ == u64_le(x),
{
    bincode::serialize(&x).unwrap_or_default()
}

/// `bincode::serialize` of a byte slice: its length as a `u64`, then its
/// bytes.
#[verifier::external_body]
pub(crate) fn bincode_bytes(bytes: &[u8]) -> (out: Vec<u8>)
    ensures
        out@ == length_prefixed(bytes@),
{
    bincode::serialize(bytes).unwrap_or_default()
}

/// `bincode::serialize` of an optional byte slice: one byte that says
/// whether there is one, then the slice as `bincode_bytes` writes it.
#[verifier::external_body]
pub(crate) fn bincode_option(value: Option<&[u8]>) -> (out: Vec<u8>)
    ensures
        out@ == optional_bytes(option_slice_view(value)),
{
    bincode::serialize(&value).unwrap_or_default()
}

/// `bincode::serialize` of a list of byte strings: their number as a
/// `u64`, then each as `bincode_bytes` writes it.
#[verifier::external_body]
pub(crate) fn bincode_list(items: &Vec<Vec<u8>>) -> (out: Vec<u8>)
    ensures
        out@ == list_bytes(items_view(items@)),
{
    bincode::serialize(items).unwrap_or_default()
}

/// `bincode::deserialize` of a list of byte strings: it reads what
/// `bincode_list` writes, fails where the bytes end early, and does not read
/// what follows the list.
#[verifier::external_body]
pub(crate) fn bincode_read_list(bytes: &[u8]) -> (out: Option<Vec<Vec<u8>>>)
    ensures
        out is Some <==> parse_list(bytes@) is Some,
        out matches Some(items) ==> parse_list(bytes@) == Some(items_view(items@)),
{
    bincode::deserialize::<Vec<Vec<u8>>>(bytes).ok()
}

} // verus!
