use hashgraph::author::{Author, Identity};
use hashgraph::authors::AuthorSet;
use hashgraph::checkpoint::SignedCheckpoint;
use hashgraph::dump::{Exporter, Importer};
use hashgraph::error::Error;
use hashgraph::hash::Hasher;
use hashgraph::state::State;
use hashgraph::state_machine::{decode_acl, encode_acl, StateMachine};
use hashgraph::transaction::{Key, Transaction, TransactionError, Value};
use hashgraph::tree::Tree;

fn gen_ids(n: usize) -> Vec<Identity> {
    (0..n).map(|_| Identity::generate()).collect()
}

fn set(ids: &[Identity]) -> AuthorSet {
    let mut set = AuthorSet::new();
    for id in ids {
        set.insert(id.author());
    }
    set
}

fn setup() -> StateMachine {
    StateMachine::from_tree(Tree::new())
}

#[test]
fn state_machine_test_commit() {
    let id = Identity::generate();
    let mut state = setup();
    let key = Key::new(b"prefix", b"key").unwrap();
    let value = Value::new(b"value");
    state.insert(&id.author(), &key, &value).unwrap().unwrap();
    let value = state.tree().get(key.as_ref());
    assert_eq!(value.as_ref().map(|v| &v[..]), Some(&b"value"[..]));
    state.remove(&id.author(), &key).unwrap().unwrap();
    assert_eq!(state.tree().get(key.as_ref()), None);
}

#[test]
fn state_machine_test_permission() {
    let id1 = Identity::generate();
    let id2 = Identity::generate();
    let mut state = setup();
    let key = Key::new(b"prefix", b"key").unwrap();
    let v1 = Value::new(&0u64.to_be_bytes());
    let v2 = Value::new(&1u64.to_be_bytes());

    state.insert(&id1.author(), &key, &v1).unwrap().unwrap();
    let res = state.insert(&id2.author(), &key, &v2).unwrap();
    assert_eq!(res, Err(TransactionError::Permission));
    let value = state.tree().get(key.as_ref());
    assert_eq!(value.as_ref().map(|v| &v[..]), Some(v1.as_ref()));

    state.add_author_to_prefix(&id1.author(), b"prefix", id2.author()).unwrap().unwrap();
    state.insert(&id2.author(), &key, &v2).unwrap().unwrap();
    let value = state.tree().get(key.as_ref());
    assert_eq!(value.as_ref().map(|v| &v[..]), Some(v2.as_ref()));
}

#[test]
fn acl_test_commit() {
    let id = Identity::generate();
    let mut state = setup();
    let key = Key::new(b"prefix", b"key").unwrap();
    let value = Value::new(b"value");
    state.insert(&id.author(), &key, &value).unwrap().unwrap();
    assert_eq!(state.tree().get(key.as_ref()), Some(b"value".to_vec()));
    state.remove(&id.author(), &key).unwrap().unwrap();
    assert_eq!(state.tree().get(key.as_ref()), None);
}

#[test]
fn acl_test_permission() {
    let id1 = Identity::generate();
    let id2 = Identity::generate();
    let mut state = setup();
    let key = Key::new(b"prefix", b"key").unwrap();
    let v1 = Value::new(&0u64.to_be_bytes());
    let v2 = Value::new(&1u64.to_be_bytes());
    state.insert(&id1.author(), &key, &v1).unwrap().unwrap();
    let list = state.tree().get(b"prefix");
    let res = state.insert(&id2.author(), &key, &v2).unwrap();
    assert_eq!(res, Err(TransactionError::Permission));
    // neither the value nor the list of owners changed
    assert_eq!(state.tree().get(key.as_ref()), Some(v1.as_ref().to_vec()));
    assert_eq!(state.tree().get(b"prefix"), list);
    assert_eq!(state.remove(&id2.author(), &key).unwrap(), Err(TransactionError::Permission));
    assert_eq!(
        state.compare_and_swap(&id2.author(), &key, Some(&v1), Some(&v2)).unwrap(),
        Err(TransactionError::Permission)
    );
    assert_eq!(
        state.add_author_to_prefix(&id2.author(), b"prefix", id2.author()).unwrap(),
        Err(TransactionError::Permission)
    );
    assert_eq!(
        state.remove_author_from_prefix(&id2.author(), b"prefix", id1.author()).unwrap(),
        Err(TransactionError::Permission)
    );
    assert_eq!(state.tree().get(key.as_ref()), Some(v1.as_ref().to_vec()));
    assert_eq!(state.tree().get(b"prefix"), list);
    state.add_author_to_prefix(&id1.author(), b"prefix", id2.author()).unwrap().unwrap();
    state.insert(&id2.author(), &key, &v2).unwrap().unwrap();
    assert_eq!(state.tree().get(key.as_ref()), Some(v2.as_ref().to_vec()));
}

#[test]
fn owner_list_is_stored_as_bincode() {
    let ids = gen_ids(2);
    let (a, b) = (ids[0].author(), ids[1].author());
    let mut state = setup();
    state.add_author_to_prefix(&a, b"p", a).unwrap().unwrap();
    state.add_author_to_prefix(&a, b"p", b).unwrap().unwrap();
    state.add_author_to_prefix(&b, b"p", a).unwrap().unwrap();
    let stored = state.tree().get(b"p").unwrap();
    let plain: Vec<Vec<u8>> = vec![a.to_bytes().to_vec(), b.to_bytes().to_vec()];
    assert_eq!(stored, bincode::serialize(&plain).unwrap());
    assert_eq!(stored, encode_acl(&vec![a, b]));
    assert_eq!(stored[..16], [2, 0, 0, 0, 0, 0, 0, 0, 32, 0, 0, 0, 0, 0, 0, 0]);
    assert_eq!(stored[16..48], a.to_bytes()[..]);
    assert_eq!(stored.len(), 8 + 2 * 40);
    let mut trailing = stored.clone();
    trailing.push(9);
    assert_eq!(decode_acl(&trailing), Some(vec![a, b]));
    let mut not_a_key = stored.clone();
    not_a_key[8] = 31;
    assert_eq!(decode_acl(&not_a_key), None);
    assert_eq!(decode_acl(&stored), Some(vec![a, b]));
    assert_eq!(decode_acl(&stored[..stored.len() - 1]), None);
    assert_eq!(decode_acl(&[]), None);
    assert_eq!(decode_acl(&0u64.to_le_bytes()), Some(vec![]));
    // removing the members one by one drops the list
    state.remove_author_from_prefix(&b, b"p", a).unwrap().unwrap();
    assert_eq!(decode_acl(&state.tree().get(b"p").unwrap()), Some(vec![b]));
    assert_eq!(
        state.remove_author_from_prefix(&a, b"p", b).unwrap(),
        Err(TransactionError::Permission)
    );
    state.remove_author_from_prefix(&b, b"p", a).unwrap().unwrap();
    state.remove_author_from_prefix(&b, b"p", b).unwrap().unwrap();
    assert_eq!(state.tree().get(b"p"), None);
    // with no list nobody may remove
    assert_eq!(
        state.remove_author_from_prefix(&a, b"p", a).unwrap(),
        Err(TransactionError::Permission)
    );
    // what is stored under a prefix must be a list
    let mut broken = StateMachine::from_tree({
        let mut tree = Tree::new();
        tree.insert(b"p", b"no list");
        tree
    });
    let key = Key::new(b"p", b"k").unwrap();
    assert_eq!(broken.insert(&a, &key, &Value::new(b"v")), Err(Error::Serde));
    assert_eq!(broken.tree().len(), 1);
}

#[test]
fn compare_and_swap_reports_mismatch() {
    let a = Identity::generate().author();
    let mut state = setup();
    let key = Key::new(b"p", b"k").unwrap();
    let (v1, v2) = (Value::new(b"1"), Value::new(b"2"));
    assert_eq!(state.compare_and_swap(&a, &key, None, Some(&v1)).unwrap(), Ok(()));
    assert_eq!(
        state.compare_and_swap(&a, &key, None, Some(&v2)).unwrap(),
        Err(TransactionError::CompareAndSwap { current: Some(v1.clone()), proposed: Some(v2.clone()) })
    );
    assert_eq!(state.tree().get(key.as_ref()), Some(b"1".to_vec()));
    assert_eq!(state.compare_and_swap(&a, &key, Some(&v1), Some(&v2)).unwrap(), Ok(()));
    assert_eq!(state.compare_and_swap(&a, &key, Some(&v2), None).unwrap(), Ok(()));
    assert_eq!(state.tree().get(key.as_ref()), None);
    assert_eq!(
        state.compare_and_swap(&a, &key, Some(&v2), None).unwrap(),
        Err(TransactionError::CompareAndSwap { current: None, proposed: None })
    );
}

#[test]
fn test_insert() {
    let ids = gen_ids(1);
    let mut state = State::new();
    state.genesis(set(&ids));
    let ticket = state.insert(b"prefix", b"key", Value::new(b"value")).unwrap();
    let txs = state.create_payload();
    for tx in txs.iter() {
        state.commit(&ids[0].author(), tx).unwrap().unwrap();
    }
    let value = state.tree().get(Key::new(b"prefix", b"key").unwrap().as_ref());
    assert_eq!(value.as_ref().map(|v| &v[..]), Some(&b"value"[..]));
    assert_eq!(state.take_answers(), vec![(ticket, Ok(()))]);
    assert_eq!(state.insert(&[0u8; 256], b"key", Value::new(b"v")), Err(Error::InvalidKey));
}

#[test]
fn test_authors() {
    let ids = gen_ids(4);
    let mut state = State::new();
    state.genesis(set(&ids[..2]));

    let (block, authors) = state.start_round();
    assert_eq!(block, 1);
    assert_eq!(authors.len(), 2);
    state.commit(&ids[0].author(), &Transaction::AddAuthor(ids[2].author(), 1)).unwrap().unwrap();
    state.commit(&ids[0].author(), &Transaction::RemAuthor(ids[0].author(), 1)).unwrap().unwrap();
    assert!(state.sign_block(&ids[0]).is_none());

    let (block2, authors2) = state.start_round();
    assert_eq!(block2, 1);
    assert_eq!(authors, authors2);
    state.commit(&ids[0].author(), &state.sign_block(&ids[0]).unwrap()).unwrap().unwrap();

    let (block3, authors3) = state.start_round();
    assert_eq!(block3, 2);
    assert_eq!(authors3.len(), 2);
    assert_ne!(authors3, authors);
    let mut expect: Vec<Author> = vec![ids[1].author(), ids[2].author()];
    expect.sort();
    assert_eq!(authors3, expect);
}

#[test]
fn stale_block_numbers_are_ignored() {
    let ids = gen_ids(3);
    let mut state = State::new();
    state.genesis(set(&ids[..2]));
    state.commit(&ids[0].author(), &Transaction::AddAuthor(ids[2].author(), 2)).unwrap().unwrap();
    state.commit(&ids[0].author(), &Transaction::RemAuthor(ids[2].author(), 1)).unwrap().unwrap();
    state.commit(&ids[0].author(), &Transaction::AddAuthor(ids[1].author(), 1)).unwrap().unwrap();
    state.start_round();
    assert!(state.sign_block(&ids[0]).is_none());
    // an unsigned proposal is dropped when the next round begins
    state.commit(&ids[0].author(), &Transaction::AddAuthor(ids[2].author(), 1)).unwrap().unwrap();
    state.start_round();
    assert!(state.sign_block(&ids[0]).is_some());
    let (block, authors) = state.start_round();
    assert_eq!((block, authors.len()), (1, 2));
    assert!(state.sign_block(&ids[0]).is_none());
}

#[test]
fn mod_test_export_import() {
    let ids = gen_ids(2);
    let mut state = State::new();
    state.genesis(set(&ids));

    let key = Key::new(b"prefix", b"key").unwrap();
    let value = Value::new(b"value");
    let tx = Transaction::Insert(key.clone(), value.clone());
    state.commit(&ids[0].author(), &tx).unwrap().unwrap();

    let (checkpoint, bytes) = state.export_checkpoint();
    assert_eq!(checkpoint.0, Hasher::digest(&bytes));

    let signed =
        SignedCheckpoint { checkpoint, signatures: vec![ids[0].sign(&checkpoint.0.bytes)] };
    state.import_checkpoint(&bytes, signed).unwrap();
    assert_eq!(state.tree().get(key.as_ref()), Some(b"value".to_vec()));
    assert_eq!(state.checkpoint().unwrap().checkpoint, checkpoint);
    assert_eq!(state.authors().len(), 2);

    let (checkpoint2, bytes2) = state.export_checkpoint();
    assert_eq!(checkpoint, checkpoint2);
    assert_eq!(bytes, bytes2);
}

#[test]
fn import_refuses_corrupt_checkpoint_and_clears() {
    let ids = gen_ids(2);
    let mut state = State::new();
    state.genesis(set(&ids));
    let key = Key::new(b"p", b"k").unwrap();
    state.commit(&ids[0].author(), &Transaction::Insert(key, Value::new(b"v"))).unwrap().unwrap();
    let (checkpoint, bytes) = state.export_checkpoint();
    let sign = |id: &Identity| SignedCheckpoint {
        checkpoint,
        signatures: vec![id.sign(&checkpoint.0.bytes)],
    };
    for at in [0usize, 7, 8, 20, bytes.len() - 1] {
        let mut corrupt = bytes.clone();
        corrupt[at] ^= 1;
        assert_eq!(state.import_checkpoint(&corrupt, sign(&ids[0])), Err(Error::InvalidCheckpoint));
        assert!(state.tree().is_empty());
        assert!(state.authors_tree().is_empty());
    }
    assert_eq!(state.import_checkpoint(&[], sign(&ids[0])), Err(Error::InvalidCheckpoint));
    // a signature of an outsider does not count
    let outsider = Identity::generate();
    assert_eq!(state.import_checkpoint(&bytes, sign(&outsider)), Err(Error::InvalidCheckpoint));
    assert!(state.tree().is_empty());
    // no signature at all
    let none = SignedCheckpoint { checkpoint, signatures: vec![] };
    assert_eq!(state.import_checkpoint(&bytes, none), Err(Error::InvalidCheckpoint));
    // the intact dump is still good
    assert_eq!(state.import_checkpoint(&bytes, sign(&ids[1])), Ok(()));
    assert_eq!(state.tree().len(), 2);
    // a dump of another chain is the wrong fork
    let others = gen_ids(2);
    let mut other = State::new();
    other.genesis(set(&others));
    let (cp, dump) = other.export_checkpoint();
    let signed = SignedCheckpoint { checkpoint: cp, signatures: vec![others[0].sign(&cp.0.bytes)] };
    assert_eq!(state.import_checkpoint(&dump, signed), Err(Error::InvalidCheckpoint));
    assert!(state.tree().is_empty() && state.authors_tree().is_empty());
}

#[test]
fn checkpoint_is_agreed_on_at_threshold() {
    let ids = gen_ids(4);
    let mut state = State::new();
    state.genesis(set(&ids));
    let author = ids[0].author();
    // no checkpoint waits yet
    state.commit(&author, &Transaction::SignCheckpoint(ids[0].sign(b"x"))).unwrap().unwrap();
    assert!(state.checkpoint().is_none());
    let (checkpoint, _) = state.export_checkpoint();
    let sign = |id: &Identity| Transaction::SignCheckpoint(id.sign(&checkpoint.0.bytes));
    state.commit(&ids[0].author(), &sign(&ids[0])).unwrap().unwrap();
    state.commit(&ids[0].author(), &sign(&ids[0])).unwrap().unwrap();
    state.commit(&ids[1].author(), &sign(&ids[0])).unwrap().unwrap();
    assert!(state.checkpoint().is_none());
    state.commit(&ids[1].author(), &sign(&ids[1])).unwrap().unwrap();
    let agreed = state.checkpoint().unwrap();
    assert_eq!(agreed.checkpoint, checkpoint);
    assert_eq!(agreed.signatures.len(), 2);
}

#[test]
fn dump_layout_round_trips() {
    let mut tree = Tree::new();
    tree.insert(b"b", b"");
    tree.insert(b"a", b"xy");
    let mut bytes = vec![0xaa];
    Exporter::write_tree(&tree, &mut bytes);
    let mut expect = vec![0xaa];
    expect.extend_from_slice(&2u64.to_be_bytes());
    expect.extend_from_slice(&1u64.to_be_bytes());
    expect.extend_from_slice(b"a");
    expect.extend_from_slice(&2u64.to_be_bytes());
    expect.extend_from_slice(b"xy");
    expect.extend_from_slice(&1u64.to_be_bytes());
    expect.extend_from_slice(b"b");
    expect.extend_from_slice(&0u64.to_be_bytes());
    assert_eq!(bytes, expect);
    let mut read = Tree::new();
    assert_eq!(Importer::read_tree(&mut read, &bytes, 1), Some(bytes.len()));
    assert_eq!(read.len(), 2);
    assert_eq!(read.get(b"a"), Some(b"xy".to_vec()));
    assert_eq!(read.get(b"b"), Some(vec![]));
    let mut short = Tree::new();
    assert_eq!(Importer::read_tree(&mut short, &bytes[..bytes.len() - 1], 1), None);
    assert_eq!(Importer::read_tree(&mut short, &bytes, bytes.len()), None);
    let mut empty = vec![];
    Exporter::write_tree(&Tree::new(), &mut empty);
    assert_eq!(empty, 0u64.to_be_bytes().to_vec());
}

#[test]
fn import_refuses_chain_that_does_not_replay() {
    let ids = gen_ids(1);
    let mut state = State::new();
    state.genesis(set(&ids));
    // the author tree files a lookup, but not the block that it points to
    let mut authors = Tree::new();
    authors.insert(&hashgraph::chain::lookup(&hashgraph::hash::Hash::genesis()), &[7u8; 32]);
    let mut bytes = vec![];
    Exporter::write_tree(&authors, &mut bytes);
    Exporter::write_tree(&Tree::new(), &mut bytes);
    let checkpoint = hashgraph::checkpoint::Checkpoint(Hasher::digest(&bytes));
    let signed =
        SignedCheckpoint { checkpoint, signatures: vec![ids[0].sign(&checkpoint.0.bytes)] };
    assert_eq!(state.import_checkpoint(&bytes, signed), Err(Error::InvalidState));
    assert!(state.tree().is_empty() && state.authors_tree().is_empty());
    assert_eq!(state.authors().len(), 0);
    // bytes after the two trees are not part of the dump
    let mut other = State::new();
    other.genesis(set(&ids));
    let (cp, mut dump) = other.export_checkpoint();
    dump.extend_from_slice(b"trailing");
    let signed = SignedCheckpoint { checkpoint: cp, signatures: vec![ids[0].sign(&cp.0.bytes)] };
    assert_eq!(other.import_checkpoint(&dump, signed), Ok(()));
}

#[test]
fn commit_keeps_answers_for_queued_transactions() {
    let ids = gen_ids(2);
    let (a, b) = (ids[0].author(), ids[1].author());
    let mut state = State::new();
    state.genesis(set(&ids));
    let first = state.insert(b"p", b"k", Value::new(b"v1")).unwrap();
    let payload = state.create_payload();
    assert_eq!(payload.len(), 1);
    assert_eq!(state.commit(&a, &payload[0]).unwrap(), Ok(()));
    // the same transaction from another author is refused, and nobody waits for it
    assert_eq!(state.commit(&b, &payload[0]).unwrap(), Err(TransactionError::Permission));
    assert_eq!(state.take_answers(), vec![(first, Ok(()))]);
    assert_eq!(state.tree().get(Key::new(b"p", b"k").unwrap().as_ref()), Some(b"v1".to_vec()));
    let grant = state.add_author_to_prefix(Value::new(b"p"), b);
    let revoke = state.remove_author_from_prefix(Value::new(b"p"), a);
    let swap = state
        .compare_and_swap(b"p", b"k", Some(Value::new(b"v1")), Some(Value::new(b"v2")))
        .unwrap();
    let gone = state.remove(b"p", b"k").unwrap();
    let payload = state.create_payload();
    assert_eq!(payload.len(), 4);
    for tx in &payload {
        state.commit(&a, tx).unwrap().ok();
    }
    // a granted b, removed itself, and then lost the permission to write
    assert_eq!(
        state.take_answers(),
        vec![
            (grant, Ok(())),
            (revoke, Ok(())),
            (swap, Err(TransactionError::Permission)),
            (gone, Err(TransactionError::Permission)),
        ]
    );
    assert_eq!(decode_acl(&state.tree().get(b"p").unwrap()), Some(vec![b]));
}

#[test]
fn import_keeps_the_checkpoint_that_waits_for_signatures() {
    let ids = gen_ids(4);
    let mut state = State::new();
    state.genesis(set(&ids));
    let (checkpoint, bytes) = state.export_checkpoint();
    let sign = |id: &Identity| id.sign(&checkpoint.0.bytes);
    let signed =
        SignedCheckpoint { checkpoint, signatures: vec![sign(&ids[0]), sign(&ids[1])] };
    state.import_checkpoint(&bytes, signed).unwrap();
    assert_eq!(state.checkpoint().unwrap().signatures, vec![sign(&ids[0]), sign(&ids[1])]);
    state
        .commit(&ids[2].author(), &Transaction::SignCheckpoint(sign(&ids[2])))
        .unwrap()
        .unwrap();
    assert_eq!(state.checkpoint().unwrap().signatures, vec![sign(&ids[0]), sign(&ids[1])]);
    state
        .commit(&ids[3].author(), &Transaction::SignCheckpoint(sign(&ids[3])))
        .unwrap()
        .unwrap();
    let agreed = state.checkpoint().unwrap();
    assert_eq!(agreed.checkpoint, checkpoint);
    assert_eq!(agreed.signatures, vec![sign(&ids[2]), sign(&ids[3])]);
}

#[test]
fn a_stale_request_leaves_the_next_proposal_without_the_author() {
    let ids = gen_ids(4);
    let mut state = State::new();
    state.genesis(set(&ids[..2]));
    let a = ids[0].author();
    state.commit(&a, &Transaction::AddAuthor(ids[2].author(), 7)).unwrap().unwrap();
    state.commit(&a, &Transaction::AddAuthor(ids[1].author(), 1)).unwrap().unwrap();
    state.commit(&a, &Transaction::RemAuthor(ids[3].author(), 1)).unwrap().unwrap();
    let (block, _) = state.start_round();
    assert_eq!(block, 1);
    assert!(state.sign_block(&ids[0]).is_none());
    state.commit(&a, &Transaction::AddAuthor(ids[2].author(), 1)).unwrap().unwrap();
    state.start_round();
    let tx = state.sign_block(&ids[0]).unwrap();
    state.commit(&a, &tx).unwrap().unwrap();
    let (block, authors) = state.start_round();
    assert_eq!(block, 2);
    let mut expected: Vec<Author> = ids[..3].iter().map(|id| id.author()).collect();
    expected.sort();
    assert_eq!(authors, expected);
}
