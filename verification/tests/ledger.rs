use jury_pool::batch::{Data, Kind};
use jury_pool::digest::{genesis_from_decoded, genesis_hash, hash_bytes, to_hash};
use jury_pool::error::Error;
use jury_pool::ledger::{Block, Ledger};

fn entry(kind: Kind, names: &[&str], epoch: u32) -> Data {
    Data {
        kind,
        jurors: names.iter().map(|n| n.as_bytes().to_vec()).collect(),
        rand: Vec::new(),
        jurors_index: epoch,
    }
}

#[test]
fn genesis_is_read_from_64_hex_digits() {
    let text = "000102030405060708090a0b0c0d0e0f101112131415161718191A1B1C1D1E1F".to_string();
    let expected: Vec<u8> = (0u8..32).collect();
    assert_eq!(genesis_hash(&Some(text)).to_vec(), expected);
}

#[test]
fn genesis_defaults_to_zero() {
    assert_eq!(genesis_hash(&None), [0u8; 32]);
    assert_eq!(genesis_hash(&Some("".to_string())), [0u8; 32]);
    assert_eq!(genesis_hash(&Some("zz".repeat(32))), [0u8; 32]);
    assert_eq!(genesis_hash(&Some("ab".repeat(31))), [0u8; 32]);
    assert_eq!(genesis_hash(&Some("ab".repeat(33))), [0u8; 32]);
    assert_eq!(genesis_hash(&Some("abc".to_string())), [0u8; 32]);
    assert_eq!(genesis_hash(&Some("ab".repeat(32))), [0xabu8; 32]);
}

#[test]
fn genesis_takes_decoded_bytes_of_the_right_length_only() {
    assert_eq!(genesis_from_decoded(&Some(vec![4u8; 32])), [4u8; 32]);
    assert_eq!(genesis_from_decoded(&Some(vec![4u8; 31])), [0u8; 32]);
    assert_eq!(genesis_from_decoded(&Some(Vec::new())), [0u8; 32]);
    assert_eq!(genesis_from_decoded(&None), [0u8; 32]);
}

#[test]
fn to_hash_wants_exactly_32_bytes() {
    let bytes: Vec<u8> = (100u8..132).collect();
    let hash = to_hash(&bytes).unwrap();
    assert_eq!(hash.to_vec(), bytes);
    assert_eq!(hash_bytes(&hash), bytes);
    assert_eq!(to_hash(&vec![0u8; 31]), None);
    assert_eq!(to_hash(&vec![0u8; 33]), None);
    assert_eq!(to_hash(&Vec::new()), None);
}

#[test]
fn empty_ledger_points_at_its_genesis() {
    let ledger = Ledger::new([9u8; 32]);
    assert_eq!(ledger.len(), 0);
    assert_eq!(ledger.get_previous_hash(), [9u8; 32]);
    assert_eq!(ledger.get_block(0), Err(Error::NotFound));
    assert_eq!(ledger.get_jurors(0), Err(Error::NotFound));
    assert_eq!(ledger.get_size(0), Err(Error::NotFound));
}

#[test]
fn sealed_blocks_are_chained() {
    let mut ledger = Ledger::new([9u8; 32]);
    let first = entry(Kind::Add, &["J1", "J2"], 0);
    let second = entry(Kind::Remove, &["J1"], 1);
    ledger.seal(vec![first.clone(), second.clone()], &vec![1, 2, 3], &vec![4, 5]);
    assert_eq!(ledger.len(), 2);
    assert_eq!(
        ledger.get_block(0),
        Ok(Block {
            certificate: vec![1, 2, 3],
            tree: vec![4, 5],
            data: first.clone(),
            previous_hash: vec![9u8; 32],
        })
    );
    assert_eq!(
        ledger.get_block(1),
        Ok(Block {
            certificate: vec![1, 2, 3],
            tree: vec![4, 5],
            data: second.clone(),
            previous_hash: first.digest().to_vec(),
        })
    );
    assert_eq!(ledger.get_previous_hash(), second.digest());
    assert_eq!(ledger.get_block(2), Err(Error::NotFound));

    let third = entry(Kind::Add, &["J3"], 2);
    ledger.seal(vec![third.clone()], &vec![8], &vec![]);
    assert_eq!(ledger.len(), 3);
    assert_eq!(
        ledger.get_block(2).unwrap().previous_hash,
        second.digest().to_vec()
    );
    assert_eq!(ledger.get_block(0).unwrap().certificate, vec![1, 2, 3]);
    assert_eq!(ledger.get_previous_hash(), third.digest());
}

#[test]
fn sealing_nothing_changes_nothing() {
    let mut ledger = Ledger::new([0u8; 32]);
    ledger.seal(Vec::new(), &vec![1], &vec![2]);
    assert_eq!(ledger.len(), 0);
    assert_eq!(ledger.get_previous_hash(), [0u8; 32]);
}

#[test]
fn jurors_and_size_are_read_from_the_block() {
    let mut ledger = Ledger::new([0u8; 32]);
    ledger.seal(
        vec![entry(Kind::Add, &["J1", "J2", "J3"], 0), entry(Kind::Remove, &[], 1)],
        &Vec::new(),
        &Vec::new(),
    );
    assert_eq!(
        ledger.get_jurors(0),
        Ok(vec![b"J1".to_vec(), b"J2".to_vec(), b"J3".to_vec()])
    );
    assert_eq!(ledger.get_size(0), Ok(3));
    assert_eq!(ledger.get_jurors(1), Ok(Vec::new()));
    assert_eq!(ledger.get_size(1), Ok(0));
    assert_eq!(ledger.get_size(2), Err(Error::NotFound));
    assert_eq!(ledger.get_jurors(u32::MAX), Err(Error::NotFound));
}

#[test]
fn block_duplicate_is_equal_to_the_block() {
    let block = Block {
        certificate: vec![1],
        tree: vec![2, 3],
        data: entry(Kind::Select, &["a"], 4),
        previous_hash: vec![5u8; 32],
    };
    assert_eq!(block.duplicate(), block);
}
