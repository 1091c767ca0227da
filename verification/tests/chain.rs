use hashgraph::author::{Author, Identity};
use hashgraph::authors::AuthorSet;
use hashgraph::chain::{
    lookup, signature_threshold, AuthorChain, Block, BlockBuilder, ProposedBlock, SignedBlock,
};
use hashgraph::checkpoint::{Checkpoint, ProposedCheckpoint};
use hashgraph::error::Error;
use hashgraph::hash::Hasher;
use hashgraph::tree::Tree;

fn set(ids: &[Identity]) -> AuthorSet {
    let mut set = AuthorSet::new();
    for id in ids {
        set.insert(id.author());
    }
    set
}

fn random_hash() -> hashgraph::hash::Hash {
    Hasher::digest(&Identity::generate().to_bytes())
}

#[test]
fn chain_block_serde() {
    let block = SignedBlock {
        block: Block {
            parent: random_hash(),
            authors: vec![Identity::generate().author(), Identity::generate().author()],
        },
        signatures: vec![
            Identity::generate().sign(&random_hash().bytes),
            Identity::generate().sign(&random_hash().bytes),
        ],
    };
    let bytes = block.serialize();
    let block2 = SignedBlock::deserialize(&bytes).unwrap();
    assert_eq!(block, block2);
}

#[test]
fn chain_test_chain() {
    let id1 = Identity::generate();
    let id2 = Identity::generate();
    let id3 = Identity::generate();
    let mut chain = AuthorChain::from_tree(Tree::new()).unwrap();
    chain.genesis(set(&[
        Identity::from_bytes(&id1.to_bytes()).unwrap(),
        Identity::from_bytes(&id2.to_bytes()).unwrap(),
        Identity::from_bytes(&id3.to_bytes()).unwrap(),
    ]));
    chain.add_author(Identity::generate().author(), 1);
    chain.add_author(Identity::generate().author(), 2);
    let (_, authors) = chain.start_round();
    assert_eq!(authors.len(), 3);
    chain.sign_block(id1.author(), id1.sign(&chain.hash().unwrap().bytes));
    let (block, authors) = chain.start_round();
    assert_eq!(authors.len(), 4);
    assert_eq!(block, 2);
    let genesis = chain.genesis_hash().unwrap();

    let mut copy = Tree::new();
    for i in 0..chain.tree().len() {
        let (k, v) = chain.tree().entry(i);
        copy.insert(k, v);
    }
    let mut chain = AuthorChain::from_tree(copy).unwrap();
    assert_eq!(chain.genesis_hash().unwrap(), genesis);
    assert_eq!(chain.block(), 2);
    let (_, authors2) = chain.start_round();
    assert_eq!(authors, authors2);
}

#[test]
fn test_checkpoint() {
    let id1 = Identity::generate();
    let id2 = Identity::generate();
    let checkpoint = Checkpoint(random_hash());

    let mut proof = ProposedCheckpoint::new(checkpoint.clone());
    proof.add_sig(id1.author(), id1.sign(&proof.checkpoint.0.bytes));
    proof.add_sig(id2.author(), id2.sign(&proof.checkpoint.0.bytes));
    proof.add_sig(id2.author(), id2.sign(&proof.checkpoint.0.bytes));
    proof.add_sig(id1.author(), id2.sign(&proof.checkpoint.0.bytes));
    assert_eq!(proof.len(), 2);
    let signed = proof.into_signed_checkpoint();
    assert_eq!(signed.checkpoint, checkpoint);
    assert_eq!(signed.signatures.len(), 2);
}

#[test]
fn proposed_checkpoint_ignores_foreign_signature() {
    let id1 = Identity::generate();
    let id2 = Identity::generate();
    let mut proof = ProposedCheckpoint::new(Checkpoint(random_hash()));
    proof.add_sig(id1.author(), id2.sign(&proof.checkpoint.0.bytes));
    proof.add_sig(id1.author(), id1.sign(b"something else"));
    assert_eq!(proof.len(), 0);
}

#[test]
fn signature_threshold_is_a_third_rounded_up() {
    let expect = [(0usize, 0usize), (1, 1), (2, 1), (3, 1), (4, 2), (5, 2), (6, 2), (7, 3), (10, 4)];
    for (n, t) in expect {
        assert_eq!(signature_threshold(n), t);
        assert_eq!(t, n - n * 2 / 3);
    }
}

#[test]
fn block_layout_is_fixed() {
    let a = Identity::generate();
    let parent = random_hash();
    let sig = a.sign(b"x");
    let block =
        SignedBlock::new(Block::new(parent, vec![a.author()]), vec![sig]);
    let mut expect = parent.to_bytes();
    expect.extend_from_slice(&1u64.to_be_bytes());
    expect.extend_from_slice(&a.author().to_bytes());
    expect.extend_from_slice(&1u64.to_be_bytes());
    expect.extend_from_slice(&sig.to_bytes());
    assert_eq!(block.serialize(), expect);
    assert_eq!(expect.len(), 32 + 8 + 32 + 8 + 64);
    let mut preimage = parent.to_bytes();
    preimage.extend_from_slice(&a.author().to_bytes());
    assert_eq!(block.block.hash(), Hasher::digest(&preimage));
    let empty = SignedBlock::new(Block::new(parent, vec![]), vec![]);
    assert_eq!(empty.serialize().len(), 48);
    assert_eq!(SignedBlock::deserialize(&empty.serialize()), Ok(empty));
}

#[test]
fn deserialize_refuses_malformed_blocks() {
    let a = Identity::generate();
    let block = SignedBlock::new(Block::new(random_hash(), vec![a.author()]), vec![a.sign(b"x")]);
    let bytes = block.serialize();
    assert_eq!(SignedBlock::deserialize(&bytes[..39]), Err(Error::InvalidBlock));
    assert_eq!(SignedBlock::deserialize(&bytes[..60]), Err(Error::InvalidBlock));
    assert_eq!(SignedBlock::deserialize(&bytes[..bytes.len() - 1]), Err(Error::InvalidBlock));
    assert_eq!(SignedBlock::deserialize(&[]), Err(Error::InvalidBlock));
    let mut huge = bytes.clone();
    huge[32..40].copy_from_slice(&u64::MAX.to_be_bytes());
    assert_eq!(SignedBlock::deserialize(&huge), Err(Error::InvalidBlock));
    let mut bad_sig = bytes.clone();
    let last = bad_sig.len() - 1;
    bad_sig[last] = 0xff;
    assert_eq!(SignedBlock::deserialize(&bad_sig), Err(Error::Sig));
    let mut trailing = bytes.clone();
    trailing.push(1);
    assert_eq!(SignedBlock::deserialize(&trailing), Ok(block));
}

#[test]
fn validate_and_apply_counts_committee_signers() {
    let ids: Vec<Identity> = (0..4).map(|_| Identity::generate()).collect();
    let joiner = Identity::generate();
    let make = |signers: &[&Identity]| {
        let block = Block::new(random_hash(), vec![joiner.author(), ids[0].author()]);
        let hash = block.hash();
        let sigs = signers.iter().map(|id| id.sign(&hash.bytes)).collect();
        SignedBlock::new(block, sigs)
    };
    // 4 members need 4 - 8 / 3 = 2 signers
    let mut committee = set(&ids);
    assert_eq!(make(&[&ids[1]]).validate_and_apply(&mut committee), Err(Error::InvalidBlock));
    assert_eq!(committee.len(), 4);
    // the same member twice, or an outsider, does not count
    assert_eq!(
        make(&[&ids[1], &ids[1], &joiner]).validate_and_apply(&mut committee),
        Err(Error::InvalidBlock)
    );
    assert_eq!(committee.len(), 4);
    let block = make(&[&ids[1], &ids[2]]);
    let bytes = block.serialize();
    assert_eq!(block.validate_and_apply(&mut committee), Ok(bytes));
    // the delta toggles: the joiner is in, the first member is out
    assert!(committee.contains(&joiner.author()));
    assert!(!committee.contains(&ids[0].author()));
    assert_eq!(committee.len(), 4);
    // an empty committee accepts anything
    let mut nobody = AuthorSet::new();
    assert!(make(&[]).validate_and_apply(&mut nobody).is_ok());
    assert_eq!(nobody.len(), 2);
}

#[test]
fn proposed_block_collects_valid_signatures_once() {
    let a = Identity::generate();
    let b = Identity::generate();
    let mut builder = BlockBuilder::new(random_hash());
    builder.insert(a.author());
    builder.insert(a.author());
    assert_eq!(builder.len(), 1);
    let parent = builder.parent;
    let mut proposed: ProposedBlock = builder.to_proposed();
    assert_eq!(builder.len(), 0);
    assert_eq!(builder.parent, proposed.hash);
    assert_eq!(proposed.block.parent, parent);
    assert_eq!(proposed.hash, proposed.block.hash());
    proposed.add_sig(a.author(), b.sign(&proposed.hash.bytes));
    assert_eq!(proposed.len(), 0);
    proposed.add_sig(a.author(), a.sign(&proposed.hash.bytes));
    proposed.add_sig(a.author(), a.sign(&proposed.hash.bytes));
    proposed.add_sig(b.author(), b.sign(&proposed.hash.bytes));
    assert_eq!(proposed.len(), 2);
    let hash = proposed.hash;
    let (h, signed) = proposed.into_signed_block();
    assert_eq!(h, hash);
    assert_eq!(signed.signatures.len(), 2);
}

#[test]
fn lookup_key_layout() {
    let hash = random_hash();
    let key = lookup(&hash);
    assert_eq!(&key[..8], b"lookup::");
    assert_eq!(&key[8..], &hash.bytes[..]);
    assert_eq!(key.len(), 40);
}

#[test]
fn two_nodes_agree_on_genesis() {
    let a = Identity::generate();
    let b = Identity::generate();
    let authors: Vec<Author> = vec![a.author(), b.author()];
    let mut one = AuthorChain::empty();
    let mut two = AuthorChain::empty();
    let mut forward = AuthorSet::new();
    forward.insert(authors[0]);
    forward.insert(authors[1]);
    let mut backward = AuthorSet::new();
    backward.insert(authors[1]);
    backward.insert(authors[0]);
    assert_eq!(one.genesis_hash(), Err(Error::InvalidState));
    one.genesis(forward);
    two.genesis(backward);
    assert_eq!(one.genesis_hash(), two.genesis_hash());
    assert_ne!(one.genesis_hash().unwrap(), hashgraph::hash::Hash::genesis());
    assert_eq!(one.block(), 1);
    assert_eq!(one.tree().len(), 2);
    assert_eq!(
        one.tree().get(&lookup(&hashgraph::hash::Hash::genesis())),
        Some(one.genesis_hash().unwrap().to_bytes())
    );
    let replayed = AuthorChain::from_tree({
        let mut copy = Tree::new();
        for i in 0..one.tree().len() {
            let (k, v) = one.tree().entry(i);
            copy.insert(k, v);
        }
        copy
    })
    .unwrap();
    assert_eq!(replayed.authors().to_vec(), one.authors().to_vec());
    assert_eq!(replayed.block(), 1);
}

#[test]
fn from_tree_refuses_broken_chains() {
    let a = Identity::generate();
    let mut chain = AuthorChain::empty();
    chain.genesis(set(&[Identity::from_bytes(&a.to_bytes()).unwrap()]));
    let genesis = chain.genesis_hash().unwrap();
    let copy = |skip: Option<&[u8]>| {
        let mut copy = Tree::new();
        for i in 0..chain.tree().len() {
            let (k, v) = chain.tree().entry(i);
            if Some(k) != skip {
                copy.insert(k, v);
            }
        }
        copy
    };
    // the block that the lookup points to is missing
    assert_eq!(AuthorChain::from_tree(copy(Some(&genesis.bytes))).err(), Some(Error::InvalidState));
    // the lookup does not hold a digest
    let mut short = copy(None);
    short.insert(&lookup(&hashgraph::hash::Hash::genesis()), b"short");
    assert_eq!(AuthorChain::from_tree(short).err(), Some(Error::InvalidState));
    // the block is malformed
    let mut garbage = copy(None);
    garbage.insert(&genesis.bytes, b"garbage");
    assert_eq!(AuthorChain::from_tree(garbage).err(), Some(Error::InvalidState));
    // the chain runs in a circle
    let mut circle = copy(None);
    circle.insert(&lookup(&genesis), &genesis.bytes);
    assert_eq!(AuthorChain::from_tree(circle).err(), Some(Error::InvalidState));
    // a block without the signatures of the committee
    let joiner = Identity::generate();
    let unsigned = SignedBlock::new(Block::new(genesis, vec![joiner.author()]), vec![]);
    let hash = unsigned.block.hash();
    let mut extended = copy(None);
    extended.insert(&hash.bytes, &unsigned.serialize());
    extended.insert(&lookup(&genesis), &hash.bytes);
    assert_eq!(AuthorChain::from_tree(extended).err(), Some(Error::InvalidState));
    // without the lookup of the first block the chain is empty
    let empty = AuthorChain::from_tree(copy(Some(&lookup(&hashgraph::hash::Hash::genesis())))).unwrap();
    assert_eq!(empty.block(), 0);
    assert_eq!(empty.authors().len(), 0);
}

#[test]
fn a_block_that_follows_a_dropped_proposal_is_filed_but_not_replayed() {
    let a = Identity::generate();
    let b = Identity::generate();
    let c = Identity::generate();
    let d = Identity::generate();
    let mut chain = AuthorChain::empty();
    chain.genesis(set(&[
        Identity::from_bytes(&a.to_bytes()).unwrap(),
        Identity::from_bytes(&b.to_bytes()).unwrap(),
    ]));
    let genesis = chain.genesis_hash().unwrap();
    chain.add_author(c.author(), 1);
    let (block, authors) = chain.start_round();
    assert_eq!((block, authors.len()), (1, 2));
    let dropped = chain.hash().unwrap();
    // nobody signs; the next round drops the proposal
    chain.add_author(d.author(), 1);
    let (block, authors) = chain.start_round();
    assert_eq!((block, authors.len()), (1, 2));
    let proposed = chain.hash().unwrap();
    assert_ne!(proposed, dropped);
    chain.sign_block(a.author(), a.sign(&proposed.bytes));
    let (block, authors) = chain.start_round();
    assert_eq!((block, authors.len()), (2, 3));
    assert!(chain.authors().contains(&d.author()));
    assert!(!chain.authors().contains(&c.author()));
    assert_eq!(chain.tree().len(), 4);
    assert_eq!(chain.tree().get(&lookup(&dropped)), Some(proposed.bytes.to_vec()));
    assert_eq!(chain.tree().get(&lookup(&genesis)), None);

    let mut copy = Tree::new();
    for i in 0..chain.tree().len() {
        let (k, v) = chain.tree().entry(i);
        copy.insert(k, v);
    }
    let loaded = AuthorChain::from_tree(copy).unwrap();
    assert_eq!(loaded.genesis_hash().unwrap(), genesis);
    assert_eq!(loaded.block(), 1);
    assert_eq!(loaded.authors().len(), 2);
    assert!(!loaded.authors().contains(&d.author()));
}

#[test]
fn genesis_hash_depends_on_the_members_alone() {
    let a = Identity::generate();
    let b = Identity::generate();
    let c = Identity::generate();
    let mut forward = AuthorSet::new();
    forward.insert(a.author());
    forward.insert(b.author());
    forward.insert(c.author());
    let mut backward = AuthorSet::new();
    backward.insert(c.author());
    backward.insert(b.author());
    backward.insert(a.author());
    backward.insert(b.author());
    let mut one = AuthorChain::empty();
    one.genesis(forward);
    let mut two = AuthorChain::empty();
    two.genesis(backward);
    assert_eq!(one.genesis_hash().unwrap(), two.genesis_hash().unwrap());
    let mut keys: Vec<Author> = vec![a.author(), b.author(), c.author()];
    keys.sort();
    let mut preimage = vec![0u8; 32];
    for key in &keys {
        preimage.extend_from_slice(&key.to_bytes());
    }
    assert_eq!(one.genesis_hash().unwrap(), Hasher::digest(&preimage));
    assert_eq!(one.start_round(), (1, keys));
}
