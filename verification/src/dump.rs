//! The byte layout in which a tree is written to a checkpoint and read back.
use crate::bytes::{copy_range, lemma_join_split, push_u64_be, read_u64_be, u64_be, u64_from_be};
use crate::tree::{ascending, lemma_put_new, put, Tree};
use vstd::prelude::*;

verus! {

/// A byte string behind its length, the length as eight bytes, most
/// significant first.
pub open spec fn blob_bytes(blob: Seq<u8>) -> Seq<u8> {
    u64_be(blob.len() as u64) + blob
}

/// An entry: its key, then its value, each behind its length.
pub open spec fn entry_bytes(entry: (Seq<u8>, Seq<u8>)) -> Seq<u8> {
    blob_bytes(entry.0) + blob_bytes(entry.1)
}

/// The first `n` entries, one after the other.
pub open spec fn entries_bytes(pairs: Seq<(Seq<u8>, Seq<u8>)>, n: int) -> Seq<u8>
    decreases n,
{
    if n <= 0 {
        Seq::empty()
    } else {
        entries_bytes(pairs, n - 1) + entry_bytes(pairs[n - 1])
    }
}

/// A tree: the number of its entries as eight bytes, most significant
/// first, then the entries in the order of their keys.
pub open spec fn tree_bytes(pairs: Seq<(Seq<u8>, Seq<u8>)>) -> Seq<u8> {
    u64_be(pairs.len() as u64) + entries_bytes(pairs, pairs.len() as int)
}

/// The byte string behind its length at `at`, and where it ends; nothing
/// where the bytes end before it does.
pub open spec fn parse_blob(bytes: Seq<u8>, at: int) -> Option<(Seq<u8>, int)> {
    if 0 <= at && at + 8 <= bytes.len() {
        let n = u64_from_be(bytes.subrange(at, at + 8)) as int;
        if at + 8 + n <= bytes.len() {
            Some((bytes.subrange(at + 8, at + 8 + n), at + 8 + n))
        } else {
            None
        }
    } else {
        None
    }
}

/// The `count` entries from `at` on, and where they end.
pub open spec fn parse_entries(bytes: Seq<u8>, at: int, count: nat) -> Option<
    (Seq<(Seq<u8>, Seq<u8>)>, int),
>
    decreases count,
{
    if count == 0 {
        Some((Seq::empty(), at))
    } else {
        match parse_blob(bytes, at) {
            Some((key, mid)) => match parse_blob(bytes, mid) {
                Some((value, next)) => match parse_entries(bytes, next, (count - 1) as nat) {
                    Some((rest, end)) => Some((seq![(key, value)] + rest, end)),
                    None => None,
                },
                None => None,
            },
            None => None,
        }
    }
}

/// The entries of the tree written at `at`, and where it ends.
pub open spec fn parse_tree(bytes: Seq<u8>, at: int) -> Option<(Seq<(Seq<u8>, Seq<u8>)>, int)> {
    if 0 <= at && at + 8 <= bytes.len() {
        parse_entries(bytes, at + 8, u64_from_be(bytes.subrange(at, at + 8)) as nat)
    } else {
        None
    }
}

/// The tree that putting the first `n` of `entries`, in order, makes of
/// `pairs`.
pub open spec fn put_all(pairs: Seq<(Seq<u8>, Seq<u8>)>, entries: Seq<(Seq<u8>, Seq<u8>)>, n: int) -> Seq<
    (Seq<u8>, Seq<u8>),
>
    decreases n,
{
    if n <= 0 {
        pairs
    } else {
        put(put_all(pairs, entries, n - 1), entries[n - 1].0, entries[n - 1].1)
    }
}

/// Writes trees.
pub struct Exporter {}

/// Reads trees.
pub struct Importer {}

impl Exporter {
    /// Appends a byte string behind its length.
    fn write_bytes(out: &mut Vec<u8>, bytes: &[u8])
        ensures
            final(out)@ == old(out)@ + blob_bytes(bytes@),
    {
        push_u64_be(out, bytes.len() as u64);
        out.extend_from_slice(bytes);
        assert(out@ =~= old(out)@ + blob_bytes(bytes@));
    }

    /// Appends the tree: the number of its entries, then each key and value
    /// behind its length, in the order of the keys.
    pub fn write_tree(tree: &Tree, out: &mut Vec<u8>)
        ensures
            final(out)@ == old(out)@ + tree_bytes(tree.pairs()),
    {
        let n = tree.len();
        push_u64_be(out, n as u64);
        let ghost head = out@;
        let mut i: usize = 0;
        assert(out@ =~= head + entries_bytes(tree.pairs(), 0));
        while i < n
            invariant
                i <= n,
                n == tree.pairs().len(),
                out@ == head + entries_bytes(tree.pairs(), i as int),
            decreases n - i,
        {
            let (key, value) = tree.entry(i);
            let ghost before = out@;
            Self::write_bytes(out, key);
            Self::write_bytes(out, value);
            assert(out@ =~= head + entries_bytes(tree.pairs(), i + 1));
            i += 1;
        }
        assert(out@ =~= old(out)@ + tree_bytes(tree.pairs()));
    }
}

impl Importer {
    /// Reads the byte string behind its length at `at`.
    fn read_bytes(bytes: &[u8], at: usize) -> (r: Option<(Vec<u8>, usize)>)
        ensures
            r is Some <==> parse_blob(bytes@, at as int) is Some,
            r matches Some(out) ==> parse_blob(bytes@, at as int) == Some((out.0@, out.1 as int)),
    {
        let len = bytes.len();
        if at > len || len - at < 8 {
            return None;
        }
        let n = read_u64_be(bytes, at);
        let start = at + 8;
        if n > (len - start) as u64 {
            return None;
        }
        let end = start + n as usize;
        Some((copy_range(bytes, start, end), end))
    }

    /// Reads the tree written at `at` into `tree`, entry by entry, and says
    /// where it ends. Where the bytes end before the tree does, nothing
    /// comes back, and `tree` holds the entries read so far.
    pub fn read_tree(tree: &mut Tree, bytes: &[u8], at: usize) -> (r: Option<usize>)
        requires
            old(tree).wf(),
        ensures
            final(tree).wf(),
            r is Some <==> parse_tree(bytes@, at as int) is Some,
            r matches Some(end) ==> {
                let parsed = parse_tree(bytes@, at as int).unwrap();
                &&& end == parsed.1
                &&& at <= end <= bytes@.len()
                &&& final(tree).pairs() == put_all(
                    old(tree).pairs(),
                    parsed.0,
                    parsed.0.len() as int,
                )
            },
    {
        let len = bytes.len();
        if at > len || len - at < 8 {
            return None;
        }
        let count = read_u64_be(bytes, at);
        let mut pos: usize = at + 8;
        let mut done: u64 = 0;
        let ghost mut read: Seq<(Seq<u8>, Seq<u8>)> = Seq::empty();
        proof {
            lemma_parse_split(bytes@, pos as int, 0, count as nat);
        }
        while done < count
            invariant
                tree.wf(),
                done <= count,
                at <= pos <= bytes@.len(),
                at + 8 <= bytes@.len(),
                count == u64_from_be(bytes@.subrange(at as int, at + 8)),
                read.len() == done,
                tree.pairs() == put_all(old(tree).pairs(), read, done as int),
                parse_entries(bytes@, at + 8, count as nat) == joined(
                    read,
                    parse_entries(bytes@, pos as int, (count - done) as nat),
                ),
            decreases count - done,
        {
            let ghost left = (count - done) as nat;
            let (key, mid) = match Self::read_bytes(bytes, pos) {
                Some(out) => out,
                None => {
                    assert(parse_entries(bytes@, pos as int, left) is None);
                    return None;
                },
            };
            let (value, next) = match Self::read_bytes(bytes, mid) {
                Some(out) => out,
                None => {
                    assert(parse_entries(bytes@, pos as int, left) is None);
                    return None;
                },
            };
            assert(parse_entries(bytes@, pos as int, left) == joined(
                seq![(key@, value@)],
                parse_entries(bytes@, next as int, (left - 1) as nat),
            ));
            tree.insert(key.as_slice(), value.as_slice());
            proof {
                let more = read.push((key@, value@));
                assert(more.drop_last() =~= read);
                assert(put_all(old(tree).pairs(), more, done + 1) == put(
                    put_all(old(tree).pairs(), more, done as int),
                    key@,
                    value@,
                ));
                lemma_put_all_prefix(old(tree).pairs(), read, more, done as int);
                lemma_joined_step(
                    read,
                    (key@, value@),
                    parse_entries(bytes@, next as int, (count - done - 1) as nat),
                );
                read = more;
            }
            pos = next;
            done += 1;
        }
        proof {
            assert(read + Seq::<(Seq<u8>, Seq<u8>)>::empty() =~= read);
        }
        Some(pos)
    }
}

/// The entries `front` followed by the entries of `rest`, where there are
/// any.
pub open spec fn joined(front: Seq<(Seq<u8>, Seq<u8>)>, rest: Option<(Seq<(Seq<u8>, Seq<u8>)>, int)>) -> Option<
    (Seq<(Seq<u8>, Seq<u8>)>, int),
> {
    match rest {
        Some((more, end)) => Some((front + more, end)),
        None => None,
    }
}

/// Nothing read yet, all is still to be parsed.
pub proof fn lemma_parse_split(bytes: Seq<u8>, at: int, done: int, count: nat)
    ensures
        parse_entries(bytes, at, count) == joined(Seq::empty(), parse_entries(bytes, at, count)),
{
    match parse_entries(bytes, at, count) {
        Some((more, end)) => {
            assert(Seq::<(Seq<u8>, Seq<u8>)>::empty() + more =~= more);
        },
        None => {},
    }
}

/// One more entry read is one entry less to be parsed.
pub proof fn lemma_joined_step(
    front: Seq<(Seq<u8>, Seq<u8>)>,
    entry: (Seq<u8>, Seq<u8>),
    rest: Option<(Seq<(Seq<u8>, Seq<u8>)>, int)>,
)
    ensures
        joined(front, joined(seq![entry], rest)) == joined(front.push(entry), rest),
{
    match rest {
        Some((more, end)) => {
            assert(front + (seq![entry] + more) =~= front.push(entry) + more);
        },
        None => {},
    }
}

/// Putting the first entries depends on the first entries only.
pub proof fn lemma_put_all_prefix(
    pairs: Seq<(Seq<u8>, Seq<u8>)>,
    a: Seq<(Seq<u8>, Seq<u8>)>,
    b: Seq<(Seq<u8>, Seq<u8>)>,
    n: int,
)
    requires
        n <= a.len(),
        n <= b.len(),
        forall|i: int| 0 <= i < n ==> a[i] == b[i],
    ensures
        put_all(pairs, a, n) == put_all(pairs, b, n),
    decreases n,
{
    if n > 0 {
        lemma_put_all_prefix(pairs, a, b, n - 1);
    }
}


/// Whether the entries can be written: their number and the length of
/// each key and value fit in eight bytes.
pub open spec fn writable(pairs: Seq<(Seq<u8>, Seq<u8>)>) -> bool {
    &&& pairs.len() <= u64::MAX
    &&& forall|i: int|
        0 <= i < pairs.len() ==> (#[trigger] pairs[i]).0.len() <= u64::MAX && pairs[i].1.len()
            <= u64::MAX
}

/// A byte string that was written behind its length at `at` is read back.
pub proof fn lemma_parse_blob(bytes: Seq<u8>, at: int, blob: Seq<u8>)
    requires
        blob.len() <= u64::MAX,
        0 <= at,
        at + 8 + blob.len() <= bytes.len(),
        bytes.subrange(at, at + 8 + blob.len()) == blob_bytes(blob),
    ensures
        parse_blob(bytes, at) == Some((blob, at + 8 + blob.len())),
{
    let written = bytes.subrange(at, at + 8 + blob.len());
    assert(bytes.subrange(at, at + 8) =~= written.subrange(0, 8));
    assert(written.subrange(0, 8) =~= u64_be(blob.len() as u64));
    lemma_join_split(blob.len() as u64);
    assert(bytes.subrange(at + 8, at + 8 + blob.len()) =~= written.subrange(
        8,
        8 + blob.len() as int,
    ));
    assert(written.subrange(8, 8 + blob.len() as int) =~= blob);
}

/// The entries written one after the other are the first entry, then the
/// others.
pub proof fn lemma_entries_bytes_front(pairs: Seq<(Seq<u8>, Seq<u8>)>, n: int)
    requires
        1 <= n <= pairs.len(),
    ensures
        entries_bytes(pairs, n) == entry_bytes(pairs[0]) + entries_bytes(pairs.skip(1), n - 1),
    decreases n,
{
    if n == 1 {
        assert(entries_bytes(pairs, 0) =~= Seq::<u8>::empty());
        assert(entries_bytes(pairs.skip(1), 0) =~= Seq::<u8>::empty());
        assert(entries_bytes(pairs, 1) =~= entry_bytes(pairs[0]));
        assert(entry_bytes(pairs[0]) + Seq::<u8>::empty() =~= entry_bytes(pairs[0]));
    } else {
        lemma_entries_bytes_front(pairs, n - 1);
        assert(pairs.skip(1)[n - 2] == pairs[n - 1]);
        assert(entries_bytes(pairs, n) =~= entry_bytes(pairs[0]) + entries_bytes(
            pairs.skip(1),
            n - 1,
        ));
    }
}

/// Entries that were written one after the other at `at` are read back.
#[verifier::rlimit(40)]
pub proof fn lemma_parse_entries(bytes: Seq<u8>, at: int, pairs: Seq<(Seq<u8>, Seq<u8>)>)
    requires
        writable(pairs),
        0 <= at,
        at + entries_bytes(pairs, pairs.len() as int).len() <= bytes.len(),
        bytes.subrange(at, at + entries_bytes(pairs, pairs.len() as int).len()) == entries_bytes(
            pairs,
            pairs.len() as int,
        ),
    ensures
        parse_entries(bytes, at, pairs.len()) == Some(
            (pairs, at + entries_bytes(pairs, pairs.len() as int).len()),
        ),
    decreases pairs.len(),
{
    let n = pairs.len() as int;
    let body = entries_bytes(pairs, n);
    if n > 0 {
        let rest = pairs.skip(1);
        let rest_body = entries_bytes(rest, n - 1);
        lemma_entries_bytes_front(pairs, n);
        let key = pairs[0].0;
        let value = pairs[0].1;
        let kb = blob_bytes(key);
        let vb = blob_bytes(value);
        assert(body == (kb + vb) + rest_body);
        let mid = at + kb.len();
        let next = mid + vb.len();
        assert(bytes.subrange(at, at + 8 + key.len()) =~= body.subrange(0, kb.len() as int));
        assert(body.subrange(0, kb.len() as int) =~= kb);
        lemma_parse_blob(bytes, at, key);
        assert(bytes.subrange(mid, mid + 8 + value.len()) =~= body.subrange(
            kb.len() as int,
            (kb.len() + vb.len()) as int,
        ));
        assert(body.subrange(kb.len() as int, (kb.len() + vb.len()) as int) =~= vb);
        lemma_parse_blob(bytes, mid, value);
        assert(bytes.subrange(next, next + rest_body.len()) =~= body.subrange(
            (kb.len() + vb.len()) as int,
            body.len() as int,
        ));
        assert(body.subrange((kb.len() + vb.len()) as int, body.len() as int) =~= rest_body);
        assert forall|i: int| 0 <= i < rest.len() implies (#[trigger] rest[i]).0.len() <= u64::MAX
            && rest[i].1.len() <= u64::MAX by {
            assert(rest[i] == pairs[i + 1]);
        }
        lemma_parse_entries(bytes, next, rest);
        assert(seq![(key, value)] + rest =~= pairs);
    } else {
        assert(body =~= Seq::<u8>::empty());
    }
}

/// A tree that was written at `at` is read back.
pub proof fn lemma_parse_tree(bytes: Seq<u8>, at: int, pairs: Seq<(Seq<u8>, Seq<u8>)>)
    requires
        writable(pairs),
        0 <= at,
        at + tree_bytes(pairs).len() <= bytes.len(),
        bytes.subrange(at, at + tree_bytes(pairs).len()) == tree_bytes(pairs),
    ensures
        parse_tree(bytes, at) == Some((pairs, at + tree_bytes(pairs).len())),
{
    let n = pairs.len() as int;
    let written = tree_bytes(pairs);
    let body = entries_bytes(pairs, n);
    assert(bytes.subrange(at, at + 8) =~= written.subrange(0, 8));
    assert(written.subrange(0, 8) =~= u64_be(n as u64));
    lemma_join_split(n as u64);
    assert(bytes.subrange(at + 8, at + 8 + body.len()) =~= written.subrange(
        8,
        written.len() as int,
    ));
    assert(written.subrange(8, written.len() as int) =~= body);
    lemma_parse_entries(bytes, at + 8, pairs);
}

/// Putting entries whose keys ascend into the empty tree, in order, gives
/// those entries.
pub proof fn lemma_put_all_ascending(pairs: Seq<(Seq<u8>, Seq<u8>)>, n: int)
    requires
        ascending(pairs),
        0 <= n <= pairs.len(),
    ensures
        put_all(Seq::empty(), pairs, n) == pairs.subrange(0, n),
    decreases n,
{
    if n == 0 {
        assert(pairs.subrange(0, 0) =~= Seq::<(Seq<u8>, Seq<u8>)>::empty());
    } else {
        lemma_put_all_ascending(pairs, n - 1);
        let front = pairs.subrange(0, n - 1);
        assert(ascending(front));
        lemma_put_new(front, pairs[n - 1].0, pairs[n - 1].1, n - 1);
        assert(front.insert(n - 1, pairs[n - 1]) =~= pairs.subrange(0, n));
    }
}

} // verus!
