use ic_certified_map::{labeled_hash, AsHashTree, RbTree};
use jury_pool::batch::{build_tree, commitment, make_index_key, Data, Kind, PendingBatch};
use sha2::{Digest, Sha256};

fn id(text: &str) -> Vec<u8> {
    text.as_bytes().to_vec()
}

fn added(names: &[&str], epoch: u32) -> Data {
    Data {
        kind: Kind::Add,
        jurors: names.iter().map(|n| id(n)).collect(),
        rand: Vec::new(),
        jurors_index: epoch,
    }
}

fn tree_by_hand(entries: &[Data], previous: &[u8; 32]) -> RbTree<Vec<u8>, Vec<u8>> {
    let mut tree: RbTree<Vec<u8>, Vec<u8>> = RbTree::new();
    for (i, entry) in entries.iter().enumerate() {
        let digest: [u8; 32] = Sha256::digest(entry.encode()).into();
        tree.insert((i as u64).to_be_bytes().to_vec(), digest.to_vec());
    }
    tree.insert(b"previous_hash".to_vec(), previous.to_vec());
    tree
}

#[test]
fn entry_is_encoded_field_by_field() {
    let entry = added(&["J1", "abc"], 5);
    let mut expected: Vec<u8> = vec![0];
    expected.extend_from_slice(&[5, 0, 0, 0]);
    expected.extend_from_slice(&[0, 0, 0, 0, 0, 0, 0, 0]);
    expected.extend_from_slice(&[2, 0, 0, 0, 0, 0, 0, 0]);
    expected.extend_from_slice(&[2, 0, 0, 0, 0, 0, 0, 0]);
    expected.extend_from_slice(b"J1");
    expected.extend_from_slice(&[3, 0, 0, 0, 0, 0, 0, 0]);
    expected.extend_from_slice(b"abc");
    assert_eq!(entry.encode(), expected);
}

#[test]
fn entry_with_a_seed_is_encoded_with_it() {
    let entry = Data {
        kind: Kind::Select,
        jurors: Vec::new(),
        rand: vec![9u8; 32],
        jurors_index: 0x0102_0304,
    };
    let mut expected: Vec<u8> = vec![2, 4, 3, 2, 1];
    expected.extend_from_slice(&[32, 0, 0, 0, 0, 0, 0, 0]);
    expected.extend_from_slice(&[9u8; 32]);
    expected.extend_from_slice(&[0, 0, 0, 0, 0, 0, 0, 0]);
    assert_eq!(entry.encode(), expected);
}

#[test]
fn kinds_have_their_own_tags() {
    let mut entry = added(&[], 0);
    assert_eq!(entry.encode()[0], 0);
    entry.kind = Kind::Remove;
    assert_eq!(entry.encode()[0], 1);
    entry.kind = Kind::Select;
    assert_eq!(entry.encode()[0], 2);
    entry.kind = Kind::Expand;
    assert_eq!(entry.encode()[0], 3);
}

#[test]
fn grouping_of_jurors_shows_in_the_encoding() {
    assert_ne!(added(&["ab", "c"], 0).encode(), added(&["a", "bc"], 0).encode());
    assert_ne!(added(&["abc"], 0).encode(), added(&["a", "bc"], 0).encode());
}

#[test]
fn digest_is_sha256_of_the_encoding() {
    let entry = added(&["J1", "J2"], 3);
    let expected: [u8; 32] = Sha256::digest(entry.encode()).into();
    assert_eq!(entry.digest(), expected);
    assert_ne!(entry.digest().to_vec(), entry.encode());
    assert_ne!(entry.digest(), added(&["J1", "J2"], 4).digest());
}

#[test]
fn duplicate_is_equal_to_the_entry() {
    let entry = Data {
        kind: Kind::Expand,
        jurors: vec![id("x"), id("yy")],
        rand: vec![1u8; 32],
        jurors_index: 77,
    };
    assert_eq!(entry.duplicate(), entry);
}

#[test]
fn index_key_is_big_endian() {
    assert_eq!(make_index_key(0), vec![0u8; 8]);
    assert_eq!(make_index_key(1), vec![0, 0, 0, 0, 0, 0, 0, 1]);
    assert_eq!(make_index_key(0x0102_0304_0506_0708), vec![1, 2, 3, 4, 5, 6, 7, 8]);
    assert_eq!(make_index_key(u64::MAX), vec![255u8; 8]);
    assert_eq!(make_index_key(256), 256u64.to_be_bytes().to_vec());
}

#[test]
fn index_keys_ascend_with_the_index() {
    let samples = [0u64, 1, 2, 255, 256, 257, 65_535, 65_536, 1 << 32, u64::MAX - 1, u64::MAX];
    for pair in samples.windows(2) {
        assert!(make_index_key(pair[0]) < make_index_key(pair[1]));
    }
}

#[test]
fn commit_tree_holds_each_digest_and_the_previous_hash() {
    let entries = vec![added(&["J1"], 0), added(&["J2"], 1), added(&["J3"], 2)];
    let previous = [7u8; 32];
    let tree = build_tree(&entries, &previous);
    assert_eq!(tree.get(b"previous_hash"), Some(&previous.to_vec()));
    for (i, entry) in entries.iter().enumerate() {
        let key = (i as u64).to_be_bytes();
        assert_eq!(tree.get(&key[..]), Some(&entry.digest().to_vec()));
    }
    assert_eq!(tree.iter().count(), 4);
    assert_eq!(tree.root_hash(), tree_by_hand(&entries, &previous).root_hash());
}

#[test]
fn commitment_is_the_labeled_root_of_the_commit_tree() {
    let entries = vec![added(&["J1", "J2"], 0), added(&["J3"], 1)];
    let previous = [0u8; 32];
    let root = tree_by_hand(&entries, &previous).root_hash();
    assert_eq!(
        commitment(&entries, &previous),
        labeled_hash(b"certified_blocks", &root)
    );
    assert_ne!(commitment(&entries, &previous), root);
}

#[test]
fn commitment_changes_with_the_batch_and_with_the_previous_hash() {
    let one = vec![added(&["J1"], 0)];
    let two = vec![added(&["J1"], 0), added(&["J2"], 1)];
    assert_ne!(commitment(&one, &[0u8; 32]), commitment(&two, &[0u8; 32]));
    assert_ne!(commitment(&one, &[0u8; 32]), commitment(&one, &[1u8; 32]));
    assert_eq!(commitment(&two, &[5u8; 32]), commitment(&two, &[5u8; 32]));
}

#[test]
fn pending_batch_keeps_entries_in_order() {
    let mut batch = PendingBatch::new();
    assert_eq!(batch.len(), 0);
    batch.push_pending(&added(&["J1"], 0));
    batch.push_pending(&added(&["J2"], 1));
    assert_eq!(batch.len(), 2);
    assert_eq!(batch.get(0), added(&["J1"], 0));
    assert_eq!(batch.get(1), added(&["J2"], 1));
}

#[test]
fn pending_batch_has_no_commitment_while_empty() {
    let mut batch = PendingBatch::new();
    assert_eq!(batch.commitment(&[0u8; 32]), None);
    batch.push_pending(&added(&["J1"], 0));
    assert_eq!(
        batch.commitment(&[0u8; 32]),
        Some(commitment(&vec![added(&["J1"], 0)], &[0u8; 32]))
    );
    let (hash, _) = batch.certify(&[0u8; 32]);
    assert_eq!(Some(hash), batch.commitment(&[0u8; 32]));
}

#[test]
fn take_empties_the_batch() {
    let mut batch = PendingBatch::new();
    batch.push_pending(&added(&["J1"], 0));
    batch.push_pending(&added(&["J2"], 1));
    assert_eq!(batch.take(), vec![added(&["J1"], 0), added(&["J2"], 1)]);
    assert_eq!(batch.len(), 0);
    assert_eq!(batch.take(), Vec::<Data>::new());
}
