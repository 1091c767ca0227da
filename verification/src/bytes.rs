//! Byte strings: their lexicographic order and the fixed-width integer
//! encodings used by the wire and file formats.
use vstd::prelude::*;

verus! {

/// How two values stand to each other in a total order.
#[derive(Clone, Copy, Debug, PartialEq, Eq, Structural)]
pub enum Order {
    Less,
    Equal,
    Greater,
}

/// `a` comes strictly before `b` in lexicographic order: at the first
/// position where they differ `a` has the smaller byte, or `a` is a proper
/// prefix of `b`.
pub open spec fn lex_lt(a: Seq<u8>, b: Seq<u8>) -> bool {
    exists|k: int| lex_lt_at(a, b, k)
}

/// `k` is a position that shows `a` to come before `b`.
pub open spec fn lex_lt_at(a: Seq<u8>, b: Seq<u8>, k: int) -> bool {
    &&& 0 <= k <= a.len()
    &&& k <= b.len()
    &&& forall|j: int| 0 <= j < k ==> a[j] == b[j]
    &&& ((k == a.len() && k < b.len()) || (k < a.len() && k < b.len() && a[k] < b[k]))
}

/// No byte string comes before itself.
pub proof fn lemma_lex_irreflexive(a: Seq<u8>)
    ensures
        !lex_lt(a, a),
{
}

/// The lexicographic order is transitive.
pub proof fn lemma_lex_transitive(a: Seq<u8>, b: Seq<u8>, c: Seq<u8>)
    requires
        lex_lt(a, b),
        lex_lt(b, c),
    ensures
        lex_lt(a, c),
{
    let k1 = choose|k: int| lex_lt_at(a, b, k);
    let k2 = choose|k: int| lex_lt_at(b, c, k);
    let k = if k1 <= k2 { k1 } else { k2 };
    assert(lex_lt_at(a, c, k));
}

/// Of two byte strings at most one comes before the other.
pub proof fn lemma_lex_asymmetric(a: Seq<u8>, b: Seq<u8>)
    requires
        lex_lt(a, b),
    ensures
        !lex_lt(b, a),
        a != b,
{
    let k1 = choose|k: int| lex_lt_at(a, b, k);
    if lex_lt(b, a) {
        let k2 = choose|k: int| lex_lt_at(b, a, k);
        if k1 < k2 {
            assert(b[k1] == a[k1]);
        } else if k2 < k1 {
            assert(a[k2] == b[k2]);
        }
    }
}

/// Two byte strings that agree up to position `k` are equal, or one comes
/// before the other.
pub proof fn lemma_lex_total_from(a: Seq<u8>, b: Seq<u8>, k: int)
    requires
        0 <= k <= a.len(),
        k <= b.len(),
        forall|j: int| 0 <= j < k ==> a[j] == b[j],
    ensures
        a == b || lex_lt(a, b) || lex_lt(b, a),
    decreases a.len() - k,
{
    if k == a.len() {
        if k == b.len() {
            assert(a =~= b);
        } else {
            assert(lex_lt_at(a, b, k));
        }
    } else if k == b.len() {
        assert(lex_lt_at(b, a, k));
    } else if a[k] < b[k] {
        assert(lex_lt_at(a, b, k));
    } else if b[k] < a[k] {
        assert(lex_lt_at(b, a, k));
    } else {
        lemma_lex_total_from(a, b, k + 1);
    }
}

/// Of two different byte strings one comes before the other.
pub proof fn lemma_lex_total(a: Seq<u8>, b: Seq<u8>)
    ensures
        a == b || lex_lt(a, b) || lex_lt(b, a),
{
    lemma_lex_total_from(a, b, 0);
}

/// Compares two byte strings lexicographically.
pub fn compare_bytes(a: &[u8], b: &[u8]) -> (order: Order)
    ensures
        order == Order::Less <==> lex_lt(a@, b@),
        order == Order::Equal <==> a@ == b@,
        order == Order::Greater <==> lex_lt(b@, a@),
{
    let n = if a.len() < b.len() { a.len() } else { b.len() };
    let mut i: usize = 0;
    while i < n
        invariant
            i <= n,
            n <= a@.len(),
            n <= b@.len(),
            n == a@.len() || n == b@.len(),
            forall|j: int| 0 <= j < i ==> a@[j] == b@[j],
        decreases n - i,
    {
        if a[i] < b[i] {
            proof {
                assert(lex_lt_at(a@, b@, i as int));
                lemma_lex_asymmetric(a@, b@);
            }
            return Order::Less;
        }
        if a[i] > b[i] {
            proof {
                assert(lex_lt_at(b@, a@, i as int));
                lemma_lex_asymmetric(b@, a@);
            }
            return Order::Greater;
        }
        i += 1;
    }
    if a.len() < b.len() {
        proof {
            assert(lex_lt_at(a@, b@, n as int));
            lemma_lex_asymmetric(a@, b@);
        }
        Order::Less
    } else if b.len() < a.len() {
        proof {
            assert(lex_lt_at(b@, a@, n as int));
            lemma_lex_asymmetric(b@, a@);
        }
        Order::Greater
    } else {
        proof {
            assert(a@ =~= b@);
            lemma_lex_irreflexive(a@);
        }
        Order::Equal
    }
}

/// Whether two byte strings are equal.
pub fn bytes_equal(a: &[u8], b: &[u8]) -> (same: bool)
    ensures
        same == (a@ == b@),
{
    if a.len() != b.len() {
        return false;
    }
    let mut i: usize = 0;
    while i < a.len()
        invariant
            i <= a@.len(),
            a@.len() == b@.len(),
            forall|j: int| 0 <= j < i ==> a@[j] == b@[j],
        decreases a@.len() - i,
    {
        if a[i] != b[i] {
            return false;
        }
        i += 1;
    }
    assert(a@ =~= b@);
    true
}

/// A copy of the bytes of `a`.
pub fn copy_bytes(a: &[u8]) -> (out: Vec<u8>)
    ensures
        out@ == a@,
{
    let mut out: Vec<u8> = Vec::new();
    out.extend_from_slice(a);
    assert(out@ =~= a@);
    out
}

/// A copy of the bytes of `a` from `from` up to `to`.
pub fn copy_range(a: &[u8], from: usize, to: usize) -> (out: Vec<u8>)
    requires
        from <= to <= a@.len(),
    ensures
        out@ == a@.subrange(from as int, to as int),
{
    let mut out: Vec<u8> = Vec::new();
    let mut i: usize = from;
    while i < to
        invariant
            from <= i <= to,
            to <= a@.len(),
            out@ == a@.subrange(from as int, i as int),
        decreases to - i,
    {
        out.push(a[i]);
        assert(out@ =~= a@.subrange(from as int, i + 1));
        i += 1;
    }
    out
}

/// The byte of `x` that stands `shift` bits above the lowest.
pub open spec fn byte_of(x: u64, shift: u64) -> u8 {
    ((x >> shift) & 0xff) as u8
}

/// The eight bytes of `x`, most significant first.
pub open spec fn u64_be(x: u64) -> Seq<u8> {
    seq![
        byte_of(x, 56),
        byte_of(x, 48),
        byte_of(x, 40),
        byte_of(x, 32),
        byte_of(x, 24),
        byte_of(x, 16),
        byte_of(x, 8),
        byte_of(x, 0),
    ]
}

/// The eight bytes of `x`, least significant first.
pub open spec fn u64_le(x: u64) -> Seq<u8> {
    seq![
        byte_of(x, 0),
        byte_of(x, 8),
        byte_of(x, 16),
        byte_of(x, 24),
        byte_of(x, 32),
        byte_of(x, 40),
        byte_of(x, 48),
        byte_of(x, 56),
    ]
}

/// The four bytes of `x`, least significant first.
pub open spec fn u32_le(x: u32) -> Seq<u8> {
    seq![byte_of(x as u64, 0), byte_of(x as u64, 8), byte_of(x as u64, 16), byte_of(x as u64, 24)]
}

/// The number whose eight bytes, most significant first, are `b0` to `b7`.
pub open spec fn join_u64(b0: u8, b1: u8, b2: u8, b3: u8, b4: u8, b5: u8, b6: u8, b7: u8) -> u64 {
    (b0 as u64) << 56 | (b1 as u64) << 48 | (b2 as u64) << 40 | (b3 as u64) << 32 | (b4 as u64)
        << 24 | (b5 as u64) << 16 | (b6 as u64) << 8 | (b7 as u64)
}

/// The number that the first eight bytes of `s` encode, most significant
/// first.
pub open spec fn u64_from_be(s: Seq<u8>) -> u64
    recommends
        s.len() >= 8,
{
    join_u64(s[0], s[1], s[2], s[3], s[4], s[5], s[6], s[7])
}

/// The number that the first eight bytes of `s` encode, least significant
/// first.
pub open spec fn u64_from_le(s: Seq<u8>) -> u64
    recommends
        s.len() >= 8,
{
    join_u64(s[7], s[6], s[5], s[4], s[3], s[2], s[1], s[0])
}

/// Splitting a number into bytes and joining them gives the number back.
pub proof fn lemma_join_split(x: u64)
    ensures
        join_u64(
            byte_of(x, 56),
            byte_of(x, 48),
            byte_of(x, 40),
            byte_of(x, 32),
            byte_of(x, 24),
            byte_of(x, 16),
            byte_of(x, 8),
            byte_of(x, 0),
        ) == x,
        u64_from_be(u64_be(x)) == x,
        u64_from_le(u64_le(x)) == x,
{
    assert(((((x >> 56) & 0xff) as u8) as u64) << 56 | ((((x >> 48) & 0xff) as u8) as u64) << 48 | (
    (((x >> 40) & 0xff) as u8) as u64) << 40 | ((((x >> 32) & 0xff) as u8) as u64) << 32 | ((((x
        >> 24) & 0xff) as u8) as u64) << 24 | ((((x >> 16) & 0xff) as u8) as u64) << 16 | ((((x
        >> 8) & 0xff) as u8) as u64) << 8 | ((((x >> 0) & 0xff) as u8) as u64) == x)
        by (bit_vector);
}

/// Joining eight bytes and splitting the number gives the bytes back.
pub proof fn lemma_split_join(b0: u8, b1: u8, b2: u8, b3: u8, b4: u8, b5: u8, b6: u8, b7: u8)
    ensures
        u64_be(join_u64(b0, b1, b2, b3, b4, b5, b6, b7)) == seq![b0, b1, b2, b3, b4, b5, b6, b7],
        u64_le(join_u64(b0, b1, b2, b3, b4, b5, b6, b7)) == seq![b7, b6, b5, b4, b3, b2, b1, b0],
{
    let x = join_u64(b0, b1, b2, b3, b4, b5, b6, b7);
    assert(x == (b0 as u64) << 56 | (b1 as u64) << 48 | (b2 as u64) << 40 | (b3 as u64) << 32 | (
    b4 as u64) << 24 | (b5 as u64) << 16 | (b6 as u64) << 8 | (b7 as u64));
    assert(x == (b0 as u64) << 56 | (b1 as u64) << 48 | (b2 as u64) << 40 | (b3 as u64) << 32 | (
    b4 as u64) << 24 | (b5 as u64) << 16 | (b6 as u64) << 8 | (b7 as u64) ==> ((x >> 56) & 0xff)
        as u8 == b0 && ((x >> 48) & 0xff) as u8 == b1 && ((x >> 40) & 0xff) as u8 == b2 && ((x
        >> 32) & 0xff) as u8 == b3 && ((x >> 24) & 0xff) as u8 == b4 && ((x >> 16) & 0xff) as u8
        == b5 && ((x >> 8) & 0xff) as u8 == b6 && ((x >> 0) & 0xff) as u8 == b7) by (bit_vector);
    assert(u64_be(x) =~= seq![b0, b1, b2, b3, b4, b5, b6, b7]);
    assert(u64_le(x) =~= seq![b7, b6, b5, b4, b3, b2, b1, b0]);
}

/// The byte of `x` that stands `shift` bits above the lowest.
fn take_byte(x: u64, shift: u64) -> (b: u8)
    requires
        shift < 64,
    ensures
        b == byte_of(x, shift),
{
    let v: u64 = (x >> shift) & 0xff;
    assert(((x >> shift) & 0xff) <= 0xff) by (bit_vector);
    v as u8
}

/// Appends the eight bytes of `x`, most significant first.
pub fn push_u64_be(buf: &mut Vec<u8>, x: u64)
    ensures
        final(buf)@ == old(buf)@ + u64_be(x),
{
    buf.push(take_byte(x, 56));
    buf.push(take_byte(x, 48));
    buf.push(take_byte(x, 40));
    buf.push(take_byte(x, 32));
    buf.push(take_byte(x, 24));
    buf.push(take_byte(x, 16));
    buf.push(take_byte(x, 8));
    buf.push(take_byte(x, 0));
    assert(buf@ =~= old(buf)@ + u64_be(x));
}

/// Joins eight bytes, most significant first, into a number.
fn join_bytes(b0: u8, b1: u8, b2: u8, b3: u8, b4: u8, b5: u8, b6: u8, b7: u8) -> (x: u64)
    ensures
        x == join_u64(b0, b1, b2, b3, b4, b5, b6, b7),
{
    (b0 as u64) << 56 | (b1 as u64) << 48 | (b2 as u64) << 40 | (b3 as u64) << 32 | (b4 as u64)
        << 24 | (b5 as u64) << 16 | (b6 as u64) << 8 | (b7 as u64)
}

/// Reads the number that the eight bytes from `at` on encode, most
/// significant first.
pub fn read_u64_be(bytes: &[u8], at: usize) -> (x: u64)
    requires
        at + 8 <= bytes@.len(),
    ensures
        x == u64_from_be(bytes@.subrange(at as int, at + 8)),
{
    join_bytes(
        bytes[at],
        bytes[at + 1],
        bytes[at + 2],
        bytes[at + 3],
        bytes[at + 4],
        bytes[at + 5],
        bytes[at + 6],
        bytes[at + 7],
    )
}

/// The sixteen bytes of `x`, most significant first: the eight of its high
/// half, then the eight of its low half.
pub open spec fn u128_be(x: u128) -> Seq<u8> {
    u64_be((x >> 64) as u64) + u64_be((x & 0xffff_ffff_ffff_ffff) as u64)
}

/// Appends the sixteen bytes of `x`, most significant first.
pub fn push_u128_be(buf: &mut Vec<u8>, x: u128)
    ensures
        final(buf)@ == old(buf)@ + u128_be(x),
{
    assert((x >> 64) <= 0xffff_ffff_ffff_ffff) by (bit_vector);
    assert((x & 0xffff_ffff_ffff_ffff) <= 0xffff_ffff_ffff_ffff) by (bit_vector);
    let high: u64 = (x >> 64) as u64;
    let low: u64 = (x & 0xffff_ffff_ffff_ffff) as u64;
    push_u64_be(buf, high);
    push_u64_be(buf, low);
    assert(buf@ =~= old(buf)@ + u128_be(x));
}

} // verus!
