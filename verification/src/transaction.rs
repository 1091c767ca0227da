//! Transactions: what authors ask of the replicated state, the keys and
//! values they name, and the byte encoding under which a transaction is
//! hashed.
use crate::author::{Author, Signature};
use crate::bytes::{copy_bytes, u32_le, u64_le};
use crate::codec::{
    bincode_bytes, bincode_option, bincode_u32, bincode_u64, length_prefixed, option_slice_view,
    optional_bytes,
};
use crate::error::Error;
use vstd::prelude::*;
use vstd::slice::slice_subrange;

verus! {

/// Whether `bytes` are a framed key: one length byte, a prefix of that
/// length, then the key proper.
pub open spec fn key_framed(bytes: Seq<u8>) -> bool {
    bytes.len() >= 1 && bytes[0] as int + 1 <= bytes.len()
}

/// The prefix inside a framed key.
pub open spec fn key_prefix(bytes: Seq<u8>) -> Seq<u8> {
    bytes.subrange(1, 1 + bytes[0] as int)
}

/// The key proper inside a framed key.
pub open spec fn key_suffix(bytes: Seq<u8>) -> Seq<u8> {
    bytes.subrange(1 + bytes[0] as int, bytes.len() as int)
}

/// The framed key made of `prefix` and `key`.
pub open spec fn frame_key(prefix: Seq<u8>, key: Seq<u8>) -> Seq<u8> {
    seq![prefix.len() as u8] + prefix + key
}

/// Framing a prefix and a key and taking them out again gives them back.
pub proof fn lemma_frame_key(prefix: Seq<u8>, key: Seq<u8>)
    requires
        prefix.len() <= 255,
    ensures
        key_framed(frame_key(prefix, key)),
        key_prefix(frame_key(prefix, key)) == prefix,
        key_suffix(frame_key(prefix, key)) == key,
{
    let framed = frame_key(prefix, key);
    assert(framed[0] == prefix.len() as u8);
    assert(key_prefix(framed) =~= prefix);
    assert(key_suffix(framed) =~= key);
}

/// A key of the store: a prefix of at most 255 bytes, which decides who may
/// write, and the key proper.
#[derive(Debug, PartialEq, Eq)]
pub struct Key {
    bytes: Vec<u8>,
}

impl View for Key {
    type V = Seq<u8>;

    closed spec fn view(&self) -> Seq<u8> {
        self.bytes@
    }
}

impl Clone for Key {
    fn clone(&self) -> (out: Key)
        ensures
            out@ == self@,
    {
        proof {
            use_type_invariant(self);
        }
        Key { bytes: copy_bytes(self.bytes.as_slice()) }
    }
}

impl Key {
    #[verifier::type_invariant]
    spec fn framed(&self) -> bool {
        key_framed(self.bytes@)
    }

    /// The key with the given prefix and key proper. A prefix of more than
    /// 255 bytes is refused.
    pub fn new(prefix: &[u8], key: &[u8]) -> (r: Result<Key, Error>)
        ensures
            r is Ok <==> prefix@.len() <= 255,
            r matches Ok(k) ==> k@ == frame_key(prefix@, key@),
            r matches Err(e) ==> e == Error::InvalidKey,
    {
        if prefix.len() > 255 {
            return Err(Error::InvalidKey);
        }
        let mut bytes: Vec<u8> = Vec::new();
        bytes.push(prefix.len() as u8);
        bytes.extend_from_slice(prefix);
        bytes.extend_from_slice(key);
        proof {
            assert(bytes@ =~= frame_key(prefix@, key@));
            lemma_frame_key(prefix@, key@);
        }
        Ok(Key { bytes })
    }

    /// The prefix of the key.
    pub fn prefix(&self) -> (out: &[u8])
        ensures
            key_framed(self@),
            out@ == key_prefix(self@),
    {
        proof {
            use_type_invariant(self);
        }
        let end: usize = self.bytes[0] as usize + 1;
        slice_subrange(self.bytes.as_slice(), 1, end)
    }

    /// The key proper.
    pub fn key(&self) -> (out: &[u8])
        ensures
            key_framed(self@),
            out@ == key_suffix(self@),
    {
        proof {
            use_type_invariant(self);
        }
        let start: usize = self.bytes[0] as usize + 1;
        slice_subrange(self.bytes.as_slice(), start, self.bytes.len())
    }

    /// The key with the framed bytes `bytes`. Bytes that are empty, or whose
    /// length byte reaches past their end, are refused.
    pub fn from_bytes(bytes: &[u8]) -> (r: Result<Key, Error>)
        ensures
            r is Ok <==> key_framed(bytes@),
            r matches Ok(k) ==> k@ == bytes@,
            r matches Err(e) ==> e == Error::InvalidKey,
    {
        if bytes.len() == 0 {
            return Err(Error::InvalidKey);
        }
        if bytes[0] as usize + 1 > bytes.len() {
            return Err(Error::InvalidKey);
        }
        Ok(Key { bytes: copy_bytes(bytes) })
    }

    /// The framed bytes of the key.
    pub fn as_ref(&self) -> (out: &[u8])
        ensures
            key_framed(self@),
            out@ == self@,
    {
        proof {
            use_type_invariant(self);
        }
        self.bytes.as_slice()
    }
}

/// A value of the store: any byte string.
#[derive(Debug, PartialEq, Eq)]
pub struct Value {
    bytes: Vec<u8>,
}

impl View for Value {
    type V = Seq<u8>;

    closed spec fn view(&self) -> Seq<u8> {
        self.bytes@
    }
}

impl Clone for Value {
    fn clone(&self) -> (out: Value)
        ensures
            out@ == self@,
    {
        Value { bytes: copy_bytes(self.bytes.as_slice()) }
    }
}

impl Value {
    /// The value with the bytes `value`.
    pub fn new(value: &[u8]) -> (out: Value)
        ensures
            out@ == value@,
    {
        Value { bytes: copy_bytes(value) }
    }

    /// The bytes of the value.
    pub fn as_ref(&self) -> (out: &[u8])
        ensures
            out@ == self@,
    {
        self.bytes.as_slice()
    }
}

/// The bytes of an optional value.
pub open spec fn option_view(value: Option<Value>) -> Option<Seq<u8>> {
    match value {
        Some(v) => Some(v@),
        None => None,
    }
}

/// A copy of an optional value.
pub fn clone_option(value: &Option<Value>) -> (out: Option<Value>)
    ensures
        option_view(out) == option_view(*value),
{
    match value {
        Some(v) => Some(v.clone()),
        None => None,
    }
}

/// Why a transaction was not applied.
#[derive(Debug, PartialEq, Eq)]
pub enum TransactionError {
    /// The author may not write under the key's prefix.
    Permission,
    /// The value found was not the one expected.
    CompareAndSwap { current: Option<Value>, proposed: Option<Value> },
}

/// A transaction error with values seen as byte strings.
pub enum TransactionErrorView {
    Permission,
    CompareAndSwap { current: Option<Seq<u8>>, proposed: Option<Seq<u8>> },
}

impl View for TransactionError {
    type V = TransactionErrorView;

    open spec fn view(&self) -> TransactionErrorView {
        match *self {
            TransactionError::Permission => TransactionErrorView::Permission,
            TransactionError::CompareAndSwap { current, proposed } => {
                TransactionErrorView::CompareAndSwap {
                    current: option_view(current),
                    proposed: option_view(proposed),
                }
            },
        }
    }
}

impl Clone for TransactionError {
    fn clone(&self) -> (out: TransactionError)
        ensures
            out@ == self@,
    {
        match self {
            TransactionError::Permission => TransactionError::Permission,
            TransactionError::CompareAndSwap { current, proposed } => {
                TransactionError::CompareAndSwap {
                    current: clone_option(current),
                    proposed: clone_option(proposed),
                }
            },
        }
    }
}

/// What applying a transaction gave.
pub type TransactionResult = Result<(), TransactionError>;

/// A transaction result with values seen as byte strings.
pub open spec fn result_view(result: TransactionResult) -> Result<(), TransactionErrorView> {
    match result {
        Ok(()) => Ok(()),
        Err(e) => Err(e@),
    }
}

/// A copy of a transaction result.
pub fn clone_result(result: &TransactionResult) -> (out: TransactionResult)
    ensures
        result_view(out) == result_view(*result),
{
    match result {
        Ok(()) => Ok(()),
        Err(e) => Err(e.clone()),
    }
}

/// What an author asks of the replicated state.
#[derive(Debug, PartialEq, Eq)]
pub enum Transaction {
    /// Propose to add an author to the committee, in the given block.
    AddAuthor(Author, u64),
    /// Propose to remove an author from the committee, in the given block.
    RemAuthor(Author, u64),
    /// Sign the proposed block.
    SignBlock(Signature),
    /// Store a value under a key.
    Insert(Key, Value),
    /// Remove a key.
    Remove(Key),
    /// Let an author write under a prefix.
    AddAuthorToPrefix(Value, Author),
    /// Stop an author from writing under a prefix.
    RemAuthorFromPrefix(Value, Author),
    /// Replace the value under a key if it is the expected one.
    CompareAndSwap(Key, Option<Value>, Option<Value>),
    /// Sign the proposed checkpoint.
    SignCheckpoint(Signature),
}

/// A transaction with keys and values seen as byte strings.
pub enum TransactionView {
    AddAuthor(Author, u64),
    RemAuthor(Author, u64),
    SignBlock(Signature),
    Insert(Seq<u8>, Seq<u8>),
    Remove(Seq<u8>),
    AddAuthorToPrefix(Seq<u8>, Author),
    RemAuthorFromPrefix(Seq<u8>, Author),
    CompareAndSwap(Seq<u8>, Option<Seq<u8>>, Option<Seq<u8>>),
    SignCheckpoint(Signature),
}

impl View for Transaction {
    type V = TransactionView;

    open spec fn view(&self) -> TransactionView {
        match *self {
            Transaction::AddAuthor(a, b) => TransactionView::AddAuthor(a, b),
            Transaction::RemAuthor(a, b) => TransactionView::RemAuthor(a, b),
            Transaction::SignBlock(s) => TransactionView::SignBlock(s),
            Transaction::Insert(k, v) => TransactionView::Insert(k@, v@),
            Transaction::Remove(k) => TransactionView::Remove(k@),
            Transaction::AddAuthorToPrefix(p, a) => TransactionView::AddAuthorToPrefix(p@, a),
            Transaction::RemAuthorFromPrefix(p, a) => TransactionView::RemAuthorFromPrefix(p@, a),
            Transaction::CompareAndSwap(k, old, new) => TransactionView::CompareAndSwap(
                k@,
                option_view(old),
                option_view(new),
            ),
            Transaction::SignCheckpoint(s) => TransactionView::SignCheckpoint(s),
        }
    }
}

impl Clone for Transaction {
    fn clone(&self) -> (out: Transaction)
        ensures
            out@ == self@,
    {
        match self {
            Transaction::AddAuthor(a, b) => Transaction::AddAuthor(*a, *b),
            Transaction::RemAuthor(a, b) => Transaction::RemAuthor(*a, *b),
            Transaction::SignBlock(s) => Transaction::SignBlock(*s),
            Transaction::Insert(k, v) => Transaction::Insert(k.clone(), v.clone()),
            Transaction::Remove(k) => Transaction::Remove(k.clone()),
            Transaction::AddAuthorToPrefix(p, a) => Transaction::AddAuthorToPrefix(p.clone(), *a),
            Transaction::RemAuthorFromPrefix(p, a) => Transaction::RemAuthorFromPrefix(
                p.clone(),
                *a,
            ),
            Transaction::CompareAndSwap(k, old, new) => Transaction::CompareAndSwap(
                k.clone(),
                clone_option(old),
                clone_option(new),
            ),
            Transaction::SignCheckpoint(s) => Transaction::SignCheckpoint(*s),
        }
    }
}

/// The bytes under which a transaction is hashed: the number of its
/// variant as four bytes, least significant first, then its fields in
/// order. Authors, signatures, keys and values are byte strings behind their
/// length, block numbers are eight bytes, least significant first.
pub open spec fn transaction_bytes(tx: TransactionView) -> Seq<u8> {
    match tx {
        TransactionView::AddAuthor(a, b) => u32_le(0) + length_prefixed(a@) + u64_le(b),
        TransactionView::RemAuthor(a, b) => u32_le(1) + length_prefixed(a@) + u64_le(b),
        TransactionView::SignBlock(s) => u32_le(2) + length_prefixed(s@),
        TransactionView::Insert(k, v) => u32_le(3) + length_prefixed(k) + length_prefixed(v),
        TransactionView::Remove(k) => u32_le(4) + length_prefixed(k),
        TransactionView::AddAuthorToPrefix(p, a) => u32_le(5) + length_prefixed(p)
            + length_prefixed(a@),
        TransactionView::RemAuthorFromPrefix(p, a) => u32_le(6) + length_prefixed(p)
            + length_prefixed(a@),
        TransactionView::CompareAndSwap(k, old, new) => u32_le(7) + length_prefixed(k)
            + optional_bytes(old) + optional_bytes(new),
        TransactionView::SignCheckpoint(s) => u32_le(8) + length_prefixed(s@),
    }
}

/// The bytes of an optional value, as a slice.
fn option_slice(value: &Option<Value>) -> (out: Option<&[u8]>)
    ensures
        option_slice_view(out) == option_view(*value),
{
    match value {
        Some(v) => Some(v.as_ref()),
        None => None,
    }
}

impl Transaction {
    /// The bytes under which the transaction is hashed.
    pub fn encode(&self) -> (out: Vec<u8>)
        ensures
            out@ == transaction_bytes(self@),
    {
        let mut out: Vec<u8> = Vec::new();
        match self {
            Transaction::AddAuthor(a, b) => {
                out.append(&mut bincode_u32(0));
                out.append(&mut bincode_bytes(a.as_bytes().as_slice()));
                out.append(&mut bincode_u64(*b));
            },
            Transaction::RemAuthor(a, b) => {
                out.append(&mut bincode_u32(1));
                out.append(&mut bincode_bytes(a.as_bytes().as_slice()));
                out.append(&mut bincode_u64(*b));
            },
            Transaction::SignBlock(s) => {
                out.append(&mut bincode_u32(2));
                out.append(&mut bincode_bytes(s.as_bytes().as_slice()));
            },
            Transaction::Insert(k, v) => {
                out.append(&mut bincode_u32(3));
                out.append(&mut bincode_bytes(k.as_ref()));
                out.append(&mut bincode_bytes(v.as_ref()));
            },
            Transaction::Remove(k) => {
                out.append(&mut bincode_u32(4));
                out.append(&mut bincode_bytes(k.as_ref()));
            },
            Transaction::AddAuthorToPrefix(p, a) => {
                out.append(&mut bincode_u32(5));
                out.append(&mut bincode_bytes(p.as_ref()));
                out.append(&mut bincode_bytes(a.as_bytes().as_slice()));
            },
            Transaction::RemAuthorFromPrefix(p, a) => {
                out.append(&mut bincode_u32(6));
                out.append(&mut bincode_bytes(p.as_ref()));
                out.append(&mut bincode_bytes(a.as_bytes().as_slice()));
            },
            Transaction::CompareAndSwap(k, expected, proposed) => {
                out.append(&mut bincode_u32(7));
                out.append(&mut bincode_bytes(k.as_ref()));
                out.append(&mut bincode_option(option_slice(expected)));
                out.append(&mut bincode_option(option_slice(proposed)));
            },
            Transaction::SignCheckpoint(s) => {
                out.append(&mut bincode_u32(8));
                out.append(&mut bincode_bytes(s.as_bytes().as_slice()));
            },
        }
        assert(out@ =~= transaction_bytes(self@));
        out
    }
}

} // verus!
