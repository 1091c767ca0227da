use hashgraph::author::{Author, Identity, Signature};
use hashgraph::authors::AuthorSet;
use hashgraph::bytes::{compare_bytes, push_u128_be, push_u64_be, read_u64_be, Order};
use hashgraph::error::Error;
use hashgraph::hash::{Hasher, HASH_LENGTH};
use hashgraph::queue::{Subscription, TransactionQueue};
use std::sync::atomic::{AtomicUsize, Ordering};
use std::sync::Arc;
use std::task::{Wake, Waker};
use hashgraph::sync::SyncState;
use hashgraph::transaction::{Key, Transaction, TransactionError, Value};
use hashgraph::tree::Tree;

#[test]
fn hash_from_bytes_and_order() {
    let bytes: Vec<u8> = (0u8..32).collect();
    let hash = hashgraph::hash::Hash::from_bytes(&bytes);
    assert_eq!(HASH_LENGTH, 32);
    assert_eq!(hash.to_bytes(), bytes);
    assert_eq!(hash, hashgraph::hash::Hash::from_bytes(&bytes));
    assert_ne!(hash, hashgraph::hash::Hash::genesis());
    assert_eq!(hashgraph::hash::Hash::genesis().bytes, [0u8; 32]);
    assert!(hashgraph::hash::Hash::genesis() < hash);
}

#[test]
fn hasher_streams_and_matches_disco() {
    let mut whole = Hasher::new();
    whole.write(b"hello world");
    let mut parts = Hasher::new();
    parts.write(b"hello");
    parts.write(b" world");
    let sum = whole.sum();
    assert_eq!(sum, parts.sum());
    assert_eq!(sum, Hasher::digest(b"hello world"));
    assert_ne!(sum, Hasher::digest(b"hello worle"));
    let mut disco = disco::symmetric::DiscoHash::new(32);
    disco.write(b"hello world");
    assert_eq!(sum.to_bytes(), disco.sum());
    assert_eq!(Hasher::new().sum().to_bytes(), disco::symmetric::DiscoHash::new(32).sum());
}

#[test]
fn file_name_is_base32() {
    assert_eq!(
        hashgraph::hash::Hash::genesis().file_name(),
        "AAAAAAAAAAAAAAAAAAAAAAAAAAAAAAAAAAAAAAAAAAAAAAAAAAAA===="
    );
    let hash = Hasher::digest(b"x");
    assert_eq!(hash.file_name(), data_encoding::BASE32.encode(&hash.bytes));
}

#[test]
fn identity_signs_for_its_author() {
    let id = Identity::generate();
    let other = Identity::generate();
    let sig = id.sign(b"message");
    assert!(id.author().verify(b"message", &sig));
    assert!(!id.author().verify(b"massage", &sig));
    assert!(!other.author().verify(b"message", &sig));
    assert_eq!(id.sign(b"message"), sig);
    assert_eq!(&id.to_bytes()[32..], &id.author().to_bytes()[..]);
    let copy = Identity::from_bytes(&id.to_bytes()).unwrap();
    assert_eq!(copy.author(), id.author());
    assert_eq!(copy.sign(b"message"), sig);
    assert_eq!(Identity::from_bytes(&[0u8; 63]).err(), Some(Error::Sig));
}

#[test]
fn author_and_signature_from_bytes() {
    let id = Identity::generate();
    let author = id.author();
    assert_eq!(Author::from_bytes(&author.to_bytes()), Ok(author));
    assert_eq!(Author::from_bytes(&[1u8; 31]), Err(Error::Sig));
    assert_eq!(Author::from_bytes(&[]), Err(Error::Sig));
    let sig = id.sign(b"m");
    assert_eq!(Signature::from_bytes(&sig.to_bytes()), Ok(sig));
    assert_eq!(Signature::from_bytes(&[0u8; 10]), Err(Error::Sig));
    assert_eq!(Signature::from_bytes(&[0xffu8; 64]), Err(Error::Sig));
    let low = Author::from_bytes(&author.to_bytes()).unwrap();
    assert_eq!(low.compare(&author), Order::Equal);
}

#[test]
fn authors_are_ordered_by_bytes() {
    let mut ids: Vec<Author> = (0..6).map(|_| Identity::generate().author()).collect();
    let mut set = AuthorSet::new();
    for a in &ids {
        set.insert(*a);
        set.insert(*a);
    }
    ids.sort();
    assert_eq!(set.len(), 6);
    assert_eq!(set.to_vec(), ids);
    for pair in ids.windows(2) {
        assert_eq!(pair[0].compare(&pair[1]), Order::Less);
        assert_eq!(pair[1].compare(&pair[0]), Order::Greater);
        assert!(pair[0].to_bytes() < pair[1].to_bytes());
    }
    assert!(set.contains(&ids[3]));
    set.remove(&ids[3]);
    assert!(!set.contains(&ids[3]));
    assert_eq!(set.len(), 5);
    let copy = set.duplicate();
    assert_eq!(copy.to_vec(), set.to_vec());
    set.clear();
    assert_eq!(set.len(), 0);
    assert_eq!(copy.len(), 5);
}

#[test]
fn key_frames_prefix_and_key() {
    let key = Key::new(b"prefix", b"key").unwrap();
    assert_eq!(key.prefix(), b"prefix");
    assert_eq!(key.key(), b"key");
    assert_eq!(key.as_ref(), b"\x06prefixkey");
    assert_eq!(Key::from_bytes(key.as_ref()), Ok(key.clone()));
    let empty = Key::new(b"", b"").unwrap();
    assert_eq!(empty.as_ref(), &[0u8][..]);
    assert_eq!(empty.prefix(), b"");
    assert_eq!(empty.key(), b"");
    assert!(Key::new(&[1u8; 255], b"k").is_ok());
    assert_eq!(Key::new(&[1u8; 256], b"k"), Err(Error::InvalidKey));
    assert_eq!(Key::from_bytes(&[3, 1, 2]), Err(Error::InvalidKey));
    assert_eq!(Key::from_bytes(&[]), Err(Error::InvalidKey));
    assert_eq!(Key::from_bytes(&[2, 1, 2]).unwrap().key(), b"");
    assert_eq!(Value::new(b"value").as_ref(), b"value");
}

#[test]
fn transaction_encoding_is_bincode() {
    let id = Identity::generate();
    let author = id.author();
    let sig = id.sign(b"block");
    let key = Key::new(b"p", b"k").unwrap();
    let value = Value::new(b"v1");
    let a = author.to_bytes().to_vec();
    let s = sig.to_bytes().to_vec();
    let k = key.as_ref().to_vec();
    let v = b"v1".to_vec();
    assert_eq!(
        Transaction::AddAuthor(author, 7).encode(),
        bincode::serialize(&(0u32, &a, 7u64)).unwrap()
    );
    assert_eq!(
        Transaction::RemAuthor(author, 8).encode(),
        bincode::serialize(&(1u32, &a, 8u64)).unwrap()
    );
    assert_eq!(Transaction::SignBlock(sig).encode(), bincode::serialize(&(2u32, &s)).unwrap());
    assert_eq!(
        Transaction::Insert(key.clone(), value.clone()).encode(),
        bincode::serialize(&(3u32, &k, &v)).unwrap()
    );
    assert_eq!(
        Transaction::Remove(key.clone()).encode(),
        bincode::serialize(&(4u32, &k)).unwrap()
    );
    assert_eq!(
        Transaction::AddAuthorToPrefix(Value::new(b"p"), author).encode(),
        bincode::serialize(&(5u32, b"p".to_vec(), &a)).unwrap()
    );
    assert_eq!(
        Transaction::RemAuthorFromPrefix(Value::new(b"p"), author).encode(),
        bincode::serialize(&(6u32, b"p".to_vec(), &a)).unwrap()
    );
    assert_eq!(
        Transaction::CompareAndSwap(key.clone(), None, Some(value.clone())).encode(),
        bincode::serialize(&(7u32, &k, None::<Vec<u8>>, Some(&v))).unwrap()
    );
    assert_eq!(
        Transaction::SignCheckpoint(sig).encode(),
        bincode::serialize(&(8u32, &s)).unwrap()
    );
    assert_eq!(
        Transaction::AddAuthor(author, 1).encode()[..12],
        [0, 0, 0, 0, 32, 0, 0, 0, 0, 0, 0, 0]
    );
    assert_eq!(Transaction::AddAuthor(author, 0x0102).encode()[44..], [2, 1, 0, 0, 0, 0, 0, 0]);
    let swap = Transaction::CompareAndSwap(Key::new(b"", b"").unwrap(), None, Some(Value::new(b"v")));
    assert_eq!(
        swap.encode(),
        vec![7, 0, 0, 0, 1, 0, 0, 0, 0, 0, 0, 0, 0, 0, 1, 1, 0, 0, 0, 0, 0, 0, 0, b'v']
    );
}

#[test]
fn integers_are_written_most_significant_first() {
    let mut buf = vec![9u8];
    push_u64_be(&mut buf, 0x0102030405060708);
    assert_eq!(buf, vec![9, 1, 2, 3, 4, 5, 6, 7, 8]);
    assert_eq!(read_u64_be(&buf, 1), 0x0102030405060708);
    let mut wide = vec![];
    push_u128_be(&mut wide, 0x0102030405060708090a0b0c0d0e0f10);
    assert_eq!(wide, 0x0102030405060708090a0b0c0d0e0f10u128.to_be_bytes().to_vec());
    let mut max = vec![];
    push_u64_be(&mut max, u64::MAX);
    assert_eq!(read_u64_be(&max, 0), u64::MAX);
}

#[test]
fn bytes_compare_lexicographically() {
    assert_eq!(compare_bytes(b"", b""), Order::Equal);
    assert_eq!(compare_bytes(b"", b"a"), Order::Less);
    assert_eq!(compare_bytes(b"a", b""), Order::Greater);
    assert_eq!(compare_bytes(b"ab", b"b"), Order::Less);
    assert_eq!(compare_bytes(b"ab", b"a"), Order::Greater);
    assert_eq!(compare_bytes(b"abc", b"abd"), Order::Less);
    assert_eq!(compare_bytes(b"abc", b"abc"), Order::Equal);
}

#[test]
fn tree_keeps_keys_in_order() {
    let mut tree = Tree::new();
    assert!(tree.is_empty());
    tree.insert(b"b", b"2");
    tree.insert(b"a", b"1");
    tree.insert(b"c", b"3");
    tree.insert(b"b", b"22");
    assert_eq!(tree.len(), 3);
    assert_eq!(tree.get(b"b"), Some(b"22".to_vec()));
    assert_eq!(tree.get(b"d"), None);
    assert!(tree.contains_key(b"a") && !tree.contains_key(b""));
    let keys: Vec<&[u8]> = (0..tree.len()).map(|i| tree.entry(i).0).collect();
    assert_eq!(keys, vec![&b"a"[..], &b"b"[..], &b"c"[..]]);
    tree.remove(b"a");
    tree.remove(b"zz");
    assert_eq!(tree.len(), 2);
    assert_eq!(tree.compare_and_swap(b"b", Some(b"22"), Some(b"x")), Ok(()));
    assert_eq!(tree.get(b"b"), Some(b"x".to_vec()));
    assert_eq!(
        tree.compare_and_swap(b"b", None, Some(b"y")),
        Err((Some(b"x".to_vec()), Some(b"y".to_vec())))
    );
    assert_eq!(tree.compare_and_swap(b"n", None, Some(b"new")), Ok(()));
    assert_eq!(tree.compare_and_swap(b"n", Some(b"new"), None), Ok(()));
    assert_eq!(tree.get(b"n"), None);
    tree.clear();
    assert!(tree.is_empty());
}

#[test]
fn queue_answers_waiting_tickets() {
    let key = Key::new(b"p", b"k").unwrap();
    let tx = Transaction::Insert(key.clone(), Value::new(b"v"));
    let other = Transaction::Remove(key);
    let mut queue = TransactionQueue::new();
    let ticket = queue.create_transaction(tx.clone());
    assert_eq!(ticket, Hasher::digest(&tx.encode()));
    assert_eq!(ticket, TransactionQueue::ticket(&tx));
    assert_eq!(queue.create_payload(), vec![tx.clone()]);
    assert!(queue.create_payload().is_empty());
    queue.commit(&other, Ok(()));
    assert!(queue.take_answers().is_empty());
    queue.commit(&tx, Err(TransactionError::Permission));
    queue.commit(&tx, Ok(()));
    assert_eq!(queue.take_answers(), vec![(ticket, Err(TransactionError::Permission))]);
    assert!(queue.take_answers().is_empty());
}

#[test]
fn sync_state_genesis() {
    let state = SyncState::genesis(4);
    assert_eq!(state.population(), 4);
    assert_eq!(SyncState::genesis(0).population(), 0);
    assert_eq!(state.clone(), state);
}

#[test]
fn error_messages() {
    assert_eq!(Error::InvalidCheckpoint.message(), "Invalid checkpoint");
    assert_eq!(Error::InvalidState.message(), "Invalid state");
    assert_eq!(Error::InvalidBlock.message(), "Invalid block");
    assert_eq!(Error::InvalidEvent.message(), "Invalid event");
    assert_eq!(Error::InvalidSync.message(), "Invalid sync");
    assert_eq!(Error::InvalidKey.message(), "Invalid key");
    assert_eq!(Error::ConfigDir.message(), "Config directory was not found");
}

struct Counter(AtomicUsize);

impl Wake for Counter {
    fn wake(self: Arc<Self>) {
        self.0.fetch_add(1, Ordering::SeqCst);
    }
}

#[test]
fn subscription_wakes_all_who_asked() {
    let counter = Arc::new(Counter(AtomicUsize::new(0)));
    let mut subscription = Subscription::new();
    assert_eq!(subscription.result(), None);
    subscription.add_waker(Waker::from(counter.clone()));
    subscription.add_waker(Waker::from(counter.clone()));
    assert_eq!(counter.0.load(Ordering::SeqCst), 0);
    subscription.wake(Err(TransactionError::Permission));
    assert_eq!(counter.0.load(Ordering::SeqCst), 2);
    assert_eq!(subscription.result(), Some(Err(TransactionError::Permission)));
    subscription.wake(Ok(()));
    assert_eq!(counter.0.load(Ordering::SeqCst), 2);
    assert_eq!(subscription.result(), Some(Ok(())));
}

#[test]
fn generated_identities_differ() {
    let a = Identity::generate();
    let b = Identity::generate();
    assert_ne!(a.author(), b.author());
    assert_ne!(a.to_bytes()[..], b.to_bytes()[..]);
    assert_ne!(a.sign(b"m"), b.sign(b"m"));
    assert_ne!(a.sign(b"m").to_bytes()[..], b"m"[..]);
}

#[test]
fn generated_identity_has_matching_halves() {
    let id = Identity::generate();
    assert!(id.is_matched());
    assert!(Author::from_bytes(&id.to_bytes()[32..]).is_ok());
    let other = Identity::generate();
    let mut mixed = id.to_bytes();
    mixed[32..].copy_from_slice(&other.author().to_bytes());
    let broken = Identity::from_bytes(&mixed).unwrap();
    assert!(!broken.is_matched());
    assert_eq!(broken.author(), other.author());
    let sig = broken.sign(b"message");
    assert!(!broken.author().verify(b"message", &sig));
}

#[test]
fn author_set_lists_by_members_alone() {
    let ids: Vec<Author> = (0..5).map(|_| Identity::generate().author()).collect();
    let mut forward = AuthorSet::new();
    for a in ids.iter() {
        forward.insert(*a);
    }
    let mut backward = AuthorSet::new();
    for a in ids.iter().rev() {
        backward.insert(*a);
    }
    let extra = Identity::generate().author();
    backward.insert(extra);
    backward.remove(&extra);
    assert_eq!(forward.to_vec(), backward.to_vec());
    let listed = forward.to_vec();
    for pair in listed.windows(2) {
        assert!(pair[0].to_bytes() < pair[1].to_bytes());
    }
}
