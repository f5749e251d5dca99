use ic_certified_map::{labeled, labeled_hash, AsHashTree, RbTree};
use jury_pool::batch::{Data, Kind};
use jury_pool::error::Error;
use jury_pool::registry::{Certificate, Registry};
use serde::Serialize;
use sha2::{Digest, Sha256};

const SEED: [u8; 32] = [
    1, 2, 3, 4, 5, 6, 7, 8, 9, 10, 11, 12, 13, 14, 15, 16, 17, 18, 19, 20, 21, 22, 23, 24, 25, 26,
    27, 28, 29, 30, 31, 32,
];

fn id(text: &str) -> Vec<u8> {
    text.as_bytes().to_vec()
}

fn ids(names: &[&str]) -> Vec<Vec<u8>> {
    names.iter().map(|n| id(n)).collect()
}

fn fresh() -> Registry {
    Registry::with_genesis([0u8; 32])
}

fn certificate_for(registry: &Registry) -> Certificate {
    Certificate {
        bytes: vec![0xC0, 0xFF, 0xEE],
        certified_data: registry.set_certificate().unwrap().to_vec(),
    }
}

fn select(registry: &mut Registry, index: u32, count: u32, seed: &[u8]) -> Result<u32, Error> {
    let request = registry.begin_select(true, index, count)?;
    registry.complete_select(request, &seed.to_vec())
}

fn commit_all(registry: &mut Registry) -> u64 {
    let certificate = certificate_for(registry);
    registry.commit(true, &certificate).unwrap()
}

#[test]
fn add_then_remove_keeps_the_past() {
    let mut registry = fresh();
    assert_eq!(registry.add(true, ids(&["J1", "J2"])), Ok(0));
    assert_eq!(registry.pool_at(0), ids(&["J1", "J2"]));
    assert_eq!(registry.remove(true, ids(&["J1"])), Ok(1));
    assert_eq!(registry.pool_at(0), ids(&["J1", "J2"]));
    assert_eq!(registry.pool_at(1), ids(&["J2"]));
    assert_eq!(registry.get_history(&id("J1")), Some(vec![0, 1]));
    assert_eq!(registry.get_history(&id("J2")), Some(vec![0]));
    assert_eq!(registry.get_history(&id("J3")), None);

    assert_eq!(select(&mut registry, 0, 1, &SEED), Ok(2));
    commit_all(&mut registry);
    let drawn = registry.get_jurors(2).unwrap();
    assert_eq!(drawn.len(), 1);
    assert!(drawn == ids(&["J1"]) || drawn == ids(&["J2"]));

    let mut replayed = fresh();
    assert_eq!(replayed.add(true, ids(&["J1", "J2"])), Ok(0));
    assert_eq!(replayed.remove(true, ids(&["J1"])), Ok(1));
    assert_eq!(select(&mut replayed, 0, 1, &SEED), Ok(2));
    commit_all(&mut replayed);
    assert_eq!(replayed.get_jurors(2).unwrap(), drawn);
}

#[test]
fn pool_at_each_epoch_is_what_replaying_the_entries_gives() {
    let mut registry = fresh();
    assert_eq!(registry.add(true, ids(&["a", "b", "c"])), Ok(0));
    assert_eq!(registry.remove(true, ids(&["b", "zz"])), Ok(1));
    assert_eq!(select(&mut registry, 1, 1, &SEED), Ok(2));
    assert_eq!(registry.add(true, ids(&["b", "d"])), Ok(3));
    commit_all(&mut registry);
    assert_eq!(registry.remove(true, ids(&["a", "a", "d"])), Ok(4));
    assert_eq!(registry.add(true, ids(&["a"])), Ok(5));
    assert_eq!(registry.pool_at(0), ids(&["a", "b", "c"]));
    assert_eq!(registry.pool_at(1), ids(&["a", "c"]));
    assert_eq!(registry.pool_at(2), ids(&["a", "c"]));
    assert_eq!(registry.pool_at(3), ids(&["a", "b", "c", "d"]));
    assert_eq!(registry.pool_at(4), ids(&["b", "c"]));
    assert_eq!(registry.pool_at(5), ids(&["a", "b", "c"]));
    assert_eq!(registry.pool_at(6), ids(&["a", "b", "c"]));
    assert_eq!(registry.get_history(&id("a")), Some(vec![0, 4, 5]));
    assert_eq!(registry.get_history(&id("d")), Some(vec![3, 4]));
    assert_eq!(registry.get_history(&id("zz")), None);
}

#[test]
fn epoch_counts_blocks_and_pending_entries() {
    let mut registry = fresh();
    assert_eq!(registry.get_index(), 0);
    assert_eq!(registry.get_pending(), 0);
    assert_eq!(registry.add(true, ids(&["J1"])), Ok(0));
    assert_eq!(registry.remove(true, ids(&["J1"])), Ok(1));
    assert_eq!(registry.get_index(), 2);
    assert_eq!(registry.get_pending(), 2);
    assert_eq!(commit_all(&mut registry), 1);
    assert_eq!(registry.get_index(), 2);
    assert_eq!(registry.get_pending(), 0);
    assert_eq!(registry.add(true, ids(&["J1"])), Ok(2));
    assert_eq!(registry.get_index(), 3);
    assert_eq!(registry.get_pending(), 1);
    assert_eq!(registry.get_history(&id("J1")), Some(vec![0, 1, 2]));
}

#[test]
fn entries_carry_their_epoch() {
    let mut registry = fresh();
    assert_eq!(registry.add(true, ids(&["J1", "J2"])), Ok(0));
    assert_eq!(select(&mut registry, 0, 2, &SEED), Ok(1));
    assert_eq!(registry.remove(true, ids(&["J2"])), Ok(2));
    commit_all(&mut registry);
    assert_eq!(
        registry.get_block(0).unwrap().data,
        Data { kind: Kind::Add, jurors: ids(&["J1", "J2"]), rand: Vec::new(), jurors_index: 0 }
    );
    let drawn = registry.get_block(1).unwrap().data;
    assert_eq!(drawn.kind, Kind::Select);
    assert_eq!(drawn.rand, SEED.to_vec());
    assert_eq!(drawn.jurors_index, 1);
    assert_eq!(
        registry.get_block(2).unwrap().data,
        Data { kind: Kind::Remove, jurors: ids(&["J2"]), rand: Vec::new(), jurors_index: 2 }
    );
}

#[test]
fn unauthorized_callers_change_nothing() {
    let mut registry = fresh();
    assert_eq!(registry.add(false, ids(&["J1"])), Err(Error::Unauthorized));
    assert_eq!(registry.remove(false, ids(&["J1"])), Err(Error::Unauthorized));
    assert!(matches!(registry.begin_select(false, 0, 1), Err(Error::Unauthorized)));
    assert_eq!(registry.expand(false, 0, 1), Err(Error::Unauthorized));
    assert_eq!(registry.get_index(), 0);
    assert_eq!(registry.get_history(&id("J1")), None);

    assert_eq!(registry.add(true, ids(&["J1"])), Ok(0));
    let certificate = certificate_for(&registry);
    assert_eq!(registry.commit(false, &certificate), Err(Error::Unauthorized));
    assert_eq!(registry.get_pending(), 1);
    assert_eq!(registry.remove(false, ids(&["J1"])), Err(Error::Unauthorized));
    assert_eq!(registry.get_history(&id("J1")), Some(vec![0]));
    assert_eq!(registry.commit(true, &certificate), Ok(0));
}

#[test]
fn addition_is_refused_as_a_whole() {
    let mut registry = fresh();
    assert_eq!(registry.add(true, ids(&["J2"])), Ok(0));
    let root = registry.store_root();
    assert_eq!(registry.add(true, ids(&["J1", "J2", "J3"])), Err(Error::AlreadyActive));
    assert_eq!(registry.get_history(&id("J1")), None);
    assert_eq!(registry.get_history(&id("J3")), None);
    assert_eq!(registry.get_index(), 1);
    assert_eq!(registry.store_root(), root);
    assert_eq!(registry.add(true, ids(&["J1", "J3"])), Ok(1));
}

#[test]
fn juror_named_twice_in_one_addition_is_refused() {
    let mut registry = fresh();
    assert_eq!(registry.add(true, ids(&["J1", "J2", "J1"])), Err(Error::AlreadyActive));
    assert_eq!(registry.get_index(), 0);
    assert_eq!(registry.pool_at(0), Vec::<Vec<u8>>::new());
}

#[test]
fn too_long_identifier_is_refused() {
    let mut registry = fresh();
    assert_eq!(
        registry.add(true, vec![id("J1"), vec![b'x'; 33]]),
        Err(Error::IdentifierTooLong)
    );
    assert_eq!(registry.get_history(&id("J1")), None);
    assert_eq!(registry.add(true, vec![vec![b'x'; 32]]), Ok(0));
}

#[test]
fn first_refused_juror_decides_the_error() {
    let mut registry = fresh();
    assert_eq!(registry.add(true, ids(&["full"])), Ok(0));
    for epoch in 1u32..8 {
        if epoch % 2 == 1 {
            assert_eq!(registry.remove(true, ids(&["full"])), Ok(epoch));
        } else {
            assert_eq!(registry.add(true, ids(&["full"])), Ok(epoch));
        }
    }
    assert_eq!(registry.add(true, ids(&["active"])), Ok(8));
    assert_eq!(registry.add(true, ids(&["new", "full", "active"])), Err(Error::HistoryFull));
    assert_eq!(registry.add(true, ids(&["active", "full"])), Err(Error::AlreadyActive));
    assert_eq!(registry.add(true, ids(&["full"])), Err(Error::HistoryFull));
    assert_eq!(registry.get_index(), 9);
    assert_eq!(registry.get_history(&id("full")).unwrap().len(), 8);
    assert_eq!(registry.get_history(&id("new")), None);
}

#[test]
fn removal_passes_over_jurors_that_are_not_active() {
    let mut registry = fresh();
    assert_eq!(registry.add(true, ids(&["J1"])), Ok(0));
    assert_eq!(registry.remove(true, ids(&["J2", "J1", "J1"])), Ok(1));
    assert_eq!(registry.remove(true, ids(&["J1"])), Ok(2));
    assert_eq!(registry.get_history(&id("J1")), Some(vec![0, 1]));
    assert_eq!(registry.get_history(&id("J2")), None);
    assert_eq!(registry.get_index(), 3);
}

#[test]
fn selection_is_reproducible() {
    let mut registry = fresh();
    assert_eq!(registry.add(true, ids(&["a", "b", "c", "d", "e", "f", "g"])), Ok(0));
    assert_eq!(select(&mut registry, 0, 3, &SEED), Ok(1));
    assert_eq!(select(&mut registry, 0, 3, &SEED), Ok(2));
    commit_all(&mut registry);
    let first = registry.get_jurors(1).unwrap();
    assert_eq!(first.len(), 3);
    assert_eq!(registry.get_size(1), Ok(3));
    assert_eq!(registry.get_jurors(2).unwrap(), first);
    assert_eq!(jury_pool::selection::draw(&registry.pool_at(0), 3, &SEED), first);
}

#[test]
fn selection_of_more_than_the_pool_gives_the_pool() {
    let mut registry = fresh();
    assert_eq!(registry.add(true, ids(&["a", "b", "c"])), Ok(0));
    assert_eq!(select(&mut registry, 0, 10, &SEED), Ok(1));
    assert_eq!(select(&mut registry, 0, 0, &SEED), Ok(2));
    commit_all(&mut registry);
    let mut all = registry.get_jurors(1).unwrap();
    all.sort();
    assert_eq!(all, ids(&["a", "b", "c"]));
    assert_eq!(registry.get_size(2), Ok(0));
}

#[test]
fn seed_must_be_32_bytes() {
    let mut registry = fresh();
    assert_eq!(registry.add(true, ids(&["a", "b"])), Ok(0));
    assert_eq!(select(&mut registry, 0, 1, &SEED[..31]), Err(Error::BadSeedLength));
    assert_eq!(select(&mut registry, 0, 1, &[]), Err(Error::BadSeedLength));
    assert_eq!(select(&mut registry, 0, 1, &[0u8; 33]), Err(Error::BadSeedLength));
    assert_eq!(registry.get_index(), 1);
    assert_eq!(select(&mut registry, 0, 1, &SEED), Ok(1));
}

#[test]
fn selection_sees_the_store_as_it_is_when_the_seed_arrives() {
    let mut registry = fresh();
    assert_eq!(registry.add(true, ids(&["a"])), Ok(0));
    let request = registry.begin_select(true, 1, 5).unwrap();
    assert_eq!(request.index(), 1);
    assert_eq!(request.count(), 5);
    assert_eq!(registry.add(true, ids(&["b", "c"])), Ok(1));
    assert_eq!(registry.complete_select(request, &SEED.to_vec()), Ok(2));
    commit_all(&mut registry);
    let mut drawn = registry.get_jurors(2).unwrap();
    drawn.sort();
    assert_eq!(drawn, ids(&["a", "b", "c"]));
    assert_eq!(registry.get_block(2).unwrap().data.jurors_index, 2);
}

#[test]
fn expansion_continues_the_selection() {
    let names = ["a", "b", "c", "d", "e", "f", "g", "h", "i", "j"];
    let mut registry = fresh();
    assert_eq!(registry.add(true, ids(&names)), Ok(0));
    assert_eq!(select(&mut registry, 1, 3, &SEED), Ok(1));
    commit_all(&mut registry);
    let first = registry.get_jurors(1).unwrap();
    assert_eq!(registry.expand(true, 1, 4), Ok(2));
    commit_all(&mut registry);
    let more = registry.get_jurors(2).unwrap();
    assert_eq!(more.len(), 4);
    let whole = jury_pool::selection::draw(&registry.pool_at(1), 7, &SEED);
    assert_eq!(whole[..3], first[..]);
    assert_eq!(whole[3..], more[..]);
    for juror in &more {
        assert!(!first.contains(juror));
    }
    let block = registry.get_block(2).unwrap();
    assert_eq!(block.data.kind, Kind::Expand);
    assert_eq!(block.data.rand, SEED.to_vec());
    assert_eq!(block.data.jurors_index, 2);
}

#[test]
fn expansion_beyond_the_pool_gives_what_is_left() {
    let mut registry = fresh();
    assert_eq!(registry.add(true, ids(&["a", "b", "c", "d"])), Ok(0));
    assert_eq!(select(&mut registry, 1, 3, &SEED), Ok(1));
    commit_all(&mut registry);
    let first = registry.get_jurors(1).unwrap();
    assert_eq!(registry.expand(true, 1, u32::MAX), Ok(2));
    assert_eq!(registry.expand(true, 1, 0), Ok(3));
    commit_all(&mut registry);
    let rest = registry.get_jurors(2).unwrap();
    assert_eq!(rest.len(), 1);
    assert!(!first.contains(&rest[0]));
    assert_eq!(registry.get_size(3), Ok(0));
}

#[test]
fn expansion_needs_a_committed_block_with_a_seed() {
    let mut registry = fresh();
    assert_eq!(registry.add(true, ids(&["a", "b"])), Ok(0));
    assert_eq!(select(&mut registry, 0, 1, &SEED), Ok(1));
    assert_eq!(registry.expand(true, 1, 1), Err(Error::NotFound));
    commit_all(&mut registry);
    assert_eq!(registry.expand(true, 0, 1), Err(Error::BadSeedLength));
    assert_eq!(registry.expand(true, 2, 1), Err(Error::NotFound));
    assert_eq!(registry.get_index(), 2);
    assert_eq!(registry.expand(true, 1, 1), Ok(2));
}

#[test]
fn commit_with_the_fresh_certificate_seals_the_batch() {
    let mut registry = fresh();
    assert_eq!(registry.set_certificate(), None);
    assert_eq!(registry.add(true, ids(&["J1", "J2"])), Ok(0));
    assert_eq!(registry.remove(true, ids(&["J2"])), Ok(1));
    let certificate = certificate_for(&registry);
    assert_eq!(registry.commit(true, &certificate), Ok(1));
    assert_eq!(registry.get_pending(), 0);
    assert_eq!(registry.set_certificate(), None);
    assert_eq!(registry.get_block(0).unwrap().certificate, vec![0xC0, 0xFF, 0xEE]);
    assert_eq!(registry.get_block(1).unwrap().certificate, vec![0xC0, 0xFF, 0xEE]);
    assert_eq!(registry.get_block(2), Err(Error::NotFound));
    assert_eq!(registry.commit(true, &certificate), Err(Error::NothingPending));
}

#[test]
fn commit_with_a_stale_certificate_is_refused() {
    let mut registry = fresh();
    assert_eq!(registry.add(true, ids(&["J1"])), Ok(0));
    let stale = certificate_for(&registry);
    assert_eq!(registry.add(true, ids(&["J2"])), Ok(1));
    assert_eq!(registry.commit(true, &stale), Err(Error::CertificateMismatch));
    assert_eq!(registry.get_pending(), 2);
    assert_eq!(registry.get_block(0), Err(Error::NotFound));
    assert_eq!(registry.get_index(), 2);
    let fresh_one = certificate_for(&registry);
    assert_ne!(fresh_one.certified_data, stale.certified_data);
    assert_eq!(registry.commit(true, &fresh_one), Ok(1));
}

#[test]
fn commit_with_a_certificate_without_the_commitment_is_refused() {
    let mut registry = fresh();
    assert_eq!(registry.add(true, ids(&["J1"])), Ok(0));
    let good = registry.set_certificate().unwrap().to_vec();
    let empty = Certificate { bytes: Vec::new(), certified_data: Vec::new() };
    assert_eq!(registry.commit(true, &empty), Err(Error::CertificateMismatch));
    let short = Certificate { bytes: Vec::new(), certified_data: good[..31].to_vec() };
    assert_eq!(registry.commit(true, &short), Err(Error::CertificateMismatch));
    let mut flipped = good.clone();
    flipped[31] ^= 1;
    let wrong = Certificate { bytes: Vec::new(), certified_data: flipped };
    assert_eq!(registry.commit(true, &wrong), Err(Error::CertificateMismatch));
    assert_eq!(registry.get_pending(), 1);
    let right = Certificate { bytes: Vec::new(), certified_data: good };
    assert_eq!(registry.commit(true, &right), Ok(0));
}

#[test]
fn certificate_of_an_earlier_ledger_does_not_fit_a_later_one() {
    let mut registry = fresh();
    assert_eq!(registry.add(true, ids(&["J1"])), Ok(0));
    let first = certificate_for(&registry);
    assert_eq!(registry.commit(true, &first), Ok(0));
    assert_eq!(registry.add(true, ids(&["J2"])), Ok(1));
    assert_eq!(registry.commit(true, &first), Err(Error::CertificateMismatch));
}

#[test]
fn blocks_are_chained_from_the_genesis_hash() {
    let text = "11".repeat(32);
    let mut registry = Registry::new(&Some(text));
    assert_eq!(registry.get_previous_hash(), [0x11u8; 32]);
    assert_eq!(registry.add(true, ids(&["J1"])), Ok(0));
    assert_eq!(registry.add(true, ids(&["J2"])), Ok(1));
    commit_all(&mut registry);
    assert_eq!(registry.add(true, ids(&["J3"])), Ok(2));
    commit_all(&mut registry);
    let blocks: Vec<_> = (0..3).map(|i| registry.get_block(i).unwrap()).collect();
    assert_eq!(blocks[0].previous_hash, vec![0x11u8; 32]);
    for i in 1..3 {
        let digest: [u8; 32] = Sha256::digest(blocks[i - 1].data.encode()).into();
        assert_eq!(blocks[i].previous_hash, digest.to_vec());
    }
    let tip: [u8; 32] = Sha256::digest(blocks[2].data.encode()).into();
    assert_eq!(registry.get_previous_hash(), tip);
}

#[test]
fn registry_without_a_valid_genesis_text_starts_from_zero() {
    assert_eq!(Registry::new(&None).get_previous_hash(), [0u8; 32]);
    assert_eq!(Registry::new(&Some("xyz".to_string())).get_previous_hash(), [0u8; 32]);
}

#[test]
fn block_keeps_the_hash_tree_of_its_batch() {
    let mut registry = fresh();
    assert_eq!(registry.add(true, ids(&["J1"])), Ok(0));
    assert_eq!(registry.remove(true, ids(&["J1"])), Ok(1));
    let certified = registry.set_certificate().unwrap();
    commit_all(&mut registry);

    let first = registry.get_block(0).unwrap();
    let second = registry.get_block(1).unwrap();
    let mut tree: RbTree<Vec<u8>, Vec<u8>> = RbTree::new();
    let d0: [u8; 32] = Sha256::digest(first.data.encode()).into();
    let d1: [u8; 32] = Sha256::digest(second.data.encode()).into();
    tree.insert(0u64.to_be_bytes().to_vec(), d0.to_vec());
    tree.insert(1u64.to_be_bytes().to_vec(), d1.to_vec());
    tree.insert(b"previous_hash".to_vec(), vec![0u8; 32]);
    assert_eq!(certified, labeled_hash(b"certified_blocks", &tree.root_hash()));

    let hash_tree = labeled(b"certified_blocks", tree.as_hash_tree());
    assert_eq!(hash_tree.reconstruct(), certified);
    let mut serializer = serde_cbor::ser::Serializer::new(Vec::new());
    serializer.self_describe().unwrap();
    hash_tree.serialize(&mut serializer).unwrap();
    let expected = serializer.into_inner();
    assert_eq!(first.tree, expected);
    assert_eq!(second.tree, expected);
    assert_eq!(first.tree[..3], [0xd9, 0xd9, 0xf7]);
}

#[test]
fn certificate_is_handed_out_only_while_entries_are_pending() {
    let mut registry = fresh();
    assert_eq!(registry.get_certificate(Some(vec![1, 2])), None);
    assert_eq!(registry.get_certificate(None), None);
    assert_eq!(registry.add(true, ids(&["J1"])), Ok(0));
    assert_eq!(registry.get_certificate(Some(vec![1, 2])), Some(vec![1, 2]));
    assert_eq!(registry.get_certificate(None), None);
    commit_all(&mut registry);
    assert_eq!(registry.get_certificate(Some(vec![1, 2])), None);
}

#[test]
fn reads_of_blocks_that_are_not_there_find_nothing() {
    let mut registry = fresh();
    assert_eq!(registry.get_block(0), Err(Error::NotFound));
    assert_eq!(registry.get_jurors(0), Err(Error::NotFound));
    assert_eq!(registry.get_size(0), Err(Error::NotFound));
    assert_eq!(registry.add(true, ids(&["J1", "J2"])), Ok(0));
    assert_eq!(registry.get_jurors(0), Err(Error::NotFound));
    commit_all(&mut registry);
    assert_eq!(registry.get_jurors(0), Ok(ids(&["J1", "J2"])));
    assert_eq!(registry.get_size(0), Ok(2));
    assert_eq!(registry.get_size(1), Err(Error::NotFound));
}

#[test]
fn store_root_follows_the_membership_changes() {
    let mut registry = fresh();
    let empty = registry.store_root();
    assert_eq!(registry.add(true, ids(&["J1"])), Ok(0));
    let one = registry.store_root();
    assert_ne!(one, empty);
    assert_eq!(select(&mut registry, 0, 1, &SEED), Ok(1));
    commit_all(&mut registry);
    assert_eq!(registry.store_root(), one);
    assert_eq!(registry.remove(true, ids(&["J1"])), Ok(2));
    assert_ne!(registry.store_root(), one);
}

#[test]
fn pending_entries_can_be_read_until_they_are_committed() {
    let mut registry = fresh();
    assert_eq!(registry.get_pending_entry(0), Err(Error::NotFound));
    assert_eq!(registry.add(true, ids(&["J1"])), Ok(0));
    assert_eq!(registry.remove(true, ids(&["J1"])), Ok(1));
    assert_eq!(
        registry.get_pending_entry(1),
        Ok(Data { kind: Kind::Remove, jurors: ids(&["J1"]), rand: Vec::new(), jurors_index: 1 })
    );
    assert_eq!(registry.get_pending_entry(2), Err(Error::NotFound));
    commit_all(&mut registry);
    assert_eq!(registry.get_pending_entry(0), Err(Error::NotFound));
    assert_eq!(registry.get_block(1).unwrap().data.kind, Kind::Remove);
}

#[test]
fn store_root_is_that_of_the_tree_with_the_same_insertions() {
    let mut registry = fresh();
    let mut tree: RbTree<Vec<u8>, Vec<u8>> = RbTree::new();
    assert_eq!(registry.store_root(), tree.root_hash());
    assert_eq!(registry.add(true, ids(&["J2", "J1", "J3"])), Ok(0));
    tree.insert(id("J2"), vec![0, 0, 0, 0]);
    tree.insert(id("J1"), vec![0, 0, 0, 0]);
    tree.insert(id("J3"), vec![0, 0, 0, 0]);
    assert_eq!(registry.store_root(), tree.root_hash());
    assert_eq!(registry.remove(true, ids(&["J3", "J9", "J3", "J2"])), Ok(1));
    tree.insert(id("J3"), vec![0, 0, 0, 0, 1, 0, 0, 0]);
    tree.insert(id("J2"), vec![0, 0, 0, 0, 1, 0, 0, 0]);
    assert_eq!(registry.store_root(), tree.root_hash());
}
