use ic_certified_map::{AsHashTree, RbTree};
use jury_pool::error::Error;
use jury_pool::history::from_history;
use jury_pool::store::MembershipStore;
use serde::Serialize;

fn id(text: &str) -> Vec<u8> {
    text.as_bytes().to_vec()
}

#[test]
fn new_store_is_empty() {
    let store = MembershipStore::new();
    assert_eq!(store.get_history(&id("J1")), None);
    assert_eq!(store.collect_pool(0), Vec::<Vec<u8>>::new());
    let empty: RbTree<Vec<u8>, Vec<u8>> = RbTree::new();
    assert_eq!(store.root_hash(), empty.root_hash());
}

#[test]
fn first_addition_starts_a_history() {
    let mut store = MembershipStore::new();
    assert_eq!(store.record_add(&id("J1"), 5), Ok(()));
    assert_eq!(store.get_history(&id("J1")), Some(vec![5]));
    assert_eq!(store.get_history(&id("J2")), None);
}

#[test]
fn adding_an_active_juror_is_refused() {
    let mut store = MembershipStore::new();
    assert_eq!(store.record_add(&id("J1"), 5), Ok(()));
    let root = store.root_hash();
    assert_eq!(store.record_add(&id("J1"), 5), Err(Error::AlreadyActive));
    assert_eq!(store.record_add(&id("J1"), 6), Err(Error::AlreadyActive));
    assert_eq!(store.get_history(&id("J1")), Some(vec![5]));
    assert_eq!(store.root_hash(), root);
}

#[test]
fn removal_of_an_active_juror_is_recorded() {
    let mut store = MembershipStore::new();
    assert_eq!(store.record_add(&id("J1"), 2), Ok(()));
    store.record_remove(&id("J1"), 4);
    assert_eq!(store.get_history(&id("J1")), Some(vec![2, 4]));
}

#[test]
fn removal_of_an_unknown_or_inactive_juror_changes_nothing() {
    let mut store = MembershipStore::new();
    store.record_remove(&id("J1"), 1);
    assert_eq!(store.get_history(&id("J1")), None);
    assert_eq!(store.record_add(&id("J1"), 2), Ok(()));
    store.record_remove(&id("J1"), 3);
    let root = store.root_hash();
    store.record_remove(&id("J1"), 3);
    store.record_remove(&id("J1"), 9);
    assert_eq!(store.get_history(&id("J1")), Some(vec![2, 3]));
    assert_eq!(store.root_hash(), root);
}

#[test]
fn history_alternates_and_ninth_call_fails() {
    let mut store = MembershipStore::new();
    let juror = id("J1");
    for call in 0u32..8 {
        if call % 2 == 0 {
            assert_eq!(store.record_add(&juror, call), Ok(()));
        } else {
            store.record_remove(&juror, call);
        }
        let history = store.get_history(&juror).unwrap();
        assert_eq!(history.len() as u32, call + 1);
        assert_eq!(history.len() % 2 == 1, call % 2 == 0);
    }
    assert_eq!(store.record_add(&juror, 8), Err(Error::HistoryFull));
    assert_eq!(
        store.get_history(&juror),
        Some(vec![0, 1, 2, 3, 4, 5, 6, 7])
    );
    store.record_remove(&juror, 9);
    assert_eq!(store.get_history(&juror).unwrap().len(), 8);
}

#[test]
fn seventh_transition_is_the_last_activation() {
    let mut store = MembershipStore::new();
    let juror = id("J");
    for call in 0u32..7 {
        if call % 2 == 0 {
            assert_eq!(store.record_add(&juror, call), Ok(()));
        } else {
            store.record_remove(&juror, call);
        }
    }
    assert_eq!(store.record_add(&juror, 7), Err(Error::AlreadyActive));
    assert_eq!(store.get_history(&juror).unwrap().len(), 7);
}

#[test]
fn identifier_of_32_bytes_is_taken_and_33_is_refused() {
    let mut store = MembershipStore::new();
    assert_eq!(store.record_add(&vec![7u8; 32], 0), Ok(()));
    assert_eq!(
        store.record_add(&vec![7u8; 33], 0),
        Err(Error::IdentifierTooLong)
    );
    assert_eq!(store.get_history(&vec![7u8; 33]), None);
    assert_eq!(store.record_add(&Vec::new(), 0), Ok(()));
    assert_eq!(store.collect_pool(0), vec![Vec::new(), vec![7u8; 32]]);
}

#[test]
fn pool_comes_in_key_order_not_in_order_of_arrival() {
    let mut store = MembershipStore::new();
    for name in ["b", "ab", "c", "a", "B"] {
        assert_eq!(store.record_add(&id(name), 0), Ok(()));
    }
    assert_eq!(
        store.collect_pool(0),
        vec![id("B"), id("a"), id("ab"), id("b"), id("c")]
    );
}

#[test]
fn pool_at_an_epoch_sees_the_spans_that_hold_it() {
    let mut store = MembershipStore::new();
    assert_eq!(store.record_add(&id("J1"), 0), Ok(()));
    assert_eq!(store.record_add(&id("J2"), 0), Ok(()));
    store.record_remove(&id("J1"), 1);
    assert_eq!(store.record_add(&id("J3"), 2), Ok(()));
    assert_eq!(store.record_add(&id("J1"), 3), Ok(()));
    assert_eq!(store.collect_pool(0), vec![id("J1"), id("J2")]);
    assert_eq!(store.collect_pool(1), vec![id("J2")]);
    assert_eq!(store.collect_pool(2), vec![id("J2"), id("J3")]);
    assert_eq!(store.collect_pool(3), vec![id("J1"), id("J2"), id("J3")]);
    assert_eq!(store.collect_pool(99), vec![id("J1"), id("J2"), id("J3")]);
}

#[test]
fn root_hash_is_that_of_the_tree_with_the_same_insertions() {
    let mut store = MembershipStore::new();
    let mut tree: RbTree<Vec<u8>, Vec<u8>> = RbTree::new();
    assert_ne!(store.root_hash(), [0u8; 32]);
    assert_eq!(store.record_add(&id("J2"), 0), Ok(()));
    tree.insert(id("J2"), from_history(&vec![0]));
    assert_eq!(store.record_add(&id("J1"), 1), Ok(()));
    tree.insert(id("J1"), from_history(&vec![1]));
    store.record_remove(&id("J2"), 2);
    tree.insert(id("J2"), from_history(&vec![0, 2]));
    assert_eq!(store.root_hash(), tree.root_hash());
    assert_eq!(tree.get(b"J2"), Some(&vec![0, 0, 0, 0, 2, 0, 0, 0]));
}

#[test]
fn witness_is_that_of_the_tree_and_leads_to_the_root() {
    let mut store = MembershipStore::new();
    let mut tree: RbTree<Vec<u8>, Vec<u8>> = RbTree::new();
    for (epoch, name) in ["J2", "J1", "J3"].iter().enumerate() {
        assert_eq!(store.record_add(&id(name), epoch as u32), Ok(()));
        tree.insert(id(name), from_history(&vec![epoch as u32]));
    }
    for name in ["J1", "J3", "J0", "J9"] {
        let witness = tree.witness(name.as_bytes());
        assert_eq!(witness.reconstruct(), store.root_hash());
        let mut serializer = serde_cbor::ser::Serializer::new(Vec::new());
        serializer.self_describe().unwrap();
        witness.serialize(&mut serializer).unwrap();
        assert_eq!(store.witness(&id(name)), serializer.into_inner());
    }
    assert_ne!(store.witness(&id("J1")), store.witness(&id("J3")));
}

#[test]
fn make_jury_draws_from_the_pool_of_the_epoch() {
    let mut store = MembershipStore::new();
    for (epoch, name) in ["a", "b", "c", "d", "e"].iter().enumerate() {
        assert_eq!(store.record_add(&id(name), epoch as u32), Ok(()));
    }
    let seed = [3u8; 32];
    let jury = store.make_jury(2, 2, &seed);
    assert_eq!(jury.len(), 2);
    assert_ne!(jury[0], jury[1]);
    for juror in &jury {
        assert!(store.collect_pool(2).contains(juror));
    }
    assert_eq!(store.make_jury(2, 2, &seed), jury);
    let all = store.make_jury(2, 10, &seed);
    assert_eq!(all.len(), 3);
    assert_eq!(all[..2], jury[..]);
}
