//! The certified map that backs the membership store and the commit tree.
//!
//! The map is `ic_certified_map::RbTree`, a left-leaning red-black tree that
//! keeps a Merkle hash in each node. The functions that call the tree are
//! not proved: each states what the tree's source shows of the method it
//! calls. The tree's root hash depends on the shape of the tree and so on
//! the order of the insertions that built it, which is why a tree is
//! described by the list of its insertions and not by its contents alone.

use ic_certified_map::AsHashTree;
use ic_certified_map::RbTree;
use serde::Serialize;
use vstd::prelude::*;

use crate::lex::strictly_ascending;

verus! {

#[verifier::external_type_specification]
#[verifier::external_body]
#[verifier::reject_recursive_types(K)]
#[verifier::reject_recursive_types(V)]
pub struct ExRbTree<K, V>(RbTree<K, V>);

/// The insertions that built `tree`, oldest first, each a key and a value.
pub uninterp spec fn tree_log(tree: RbTree<Vec<u8>, Vec<u8>>) -> Seq<(Seq<u8>, Seq<u8>)>;

/// The root hash of the tree that the insertions of `log` build, made in
/// that order on an empty tree.
pub uninterp spec fn root_digest(log: Seq<(Seq<u8>, Seq<u8>)>) -> Seq<u8>;

/// The bytes of the whole hash tree of the tree that the insertions of `log`
/// build, put under the label `label` and written as self-describing CBOR.
pub uninterp spec fn witness_bytes(label: Seq<u8>, log: Seq<(Seq<u8>, Seq<u8>)>) -> Seq<u8>;

/// The bytes of the witness for `key` of the tree that the insertions of
/// `log` build, written as self-describing CBOR.
pub uninterp spec fn key_witness_bytes(log: Seq<(Seq<u8>, Seq<u8>)>, key: Seq<u8>) -> Seq<u8>;

/// The map that the insertions of `log` leave behind: each key with the
/// value of its last insertion.
pub open spec fn log_contents(log: Seq<(Seq<u8>, Seq<u8>)>) -> Map<Seq<u8>, Seq<u8>>
    decreases log.len(),
{
    if log.len() == 0 {
        Map::empty()
    } else {
        log_contents(log.drop_last()).insert(log.last().0, log.last().1)
    }
}

/// Whether `entries` lists `contents` in key order: the keys strictly
/// ascending, each with its value, and no key of the map left out.
pub open spec fn lists_in_order(
    entries: Seq<(Vec<u8>, Vec<u8>)>,
    contents: Map<Seq<u8>, Seq<u8>>,
) -> bool {
    &&& strictly_ascending(Seq::new(entries.len(), |i: int| entries[i].0@))
    &&& forall|i: int|
        0 <= i < entries.len() ==> contents.contains_key(#[trigger] entries[i].0@)
            && contents[entries[i].0@] == entries[i].1@
    &&& forall|k: Seq<u8>|
        contents.contains_key(k) ==> exists|i: int|
            0 <= i < entries.len() && #[trigger] entries[i].0@ == k
}

/// `RbTree::new`: a tree that nothing was inserted into.
#[verifier::external_body]
pub(crate) fn tree_new() -> (tree: RbTree<Vec<u8>, Vec<u8>>)
    ensures
        tree_log(tree) == Seq::<(Seq<u8>, Seq<u8>)>::empty(),
{
    RbTree::new()
}

/// `RbTree::insert`: the tree after one more insertion. The method puts the
/// value under the key, in place of an earlier value of that key if there
/// is one, and never fails.
#[verifier::external_body]
pub(crate) fn tree_insert(tree: &mut RbTree<Vec<u8>, Vec<u8>>, key: Vec<u8>, value: Vec<u8>)
    ensures
        tree_log(*final(tree)) == tree_log(*old(tree)).push((key@, value@)),
{
    tree.insert(key, value)
}

/// `RbTree::get`: a copy of the value last inserted under `key`, or `None`
/// where nothing was inserted under it.
#[verifier::external_body]
pub(crate) fn tree_get(tree: &RbTree<Vec<u8>, Vec<u8>>, key: &Vec<u8>) -> (value: Option<Vec<u8>>)
    ensures
        value is Some <==> log_contents(tree_log(*tree)).contains_key(key@),
        value is Some ==> value->0@ == log_contents(tree_log(*tree))[key@],
{
    tree.get(key.as_slice()).cloned()
}

/// `RbTree::for_each`: copies of all keys with their values, in the order in
/// which the method visits them. It walks the tree in order, so the keys
/// come out ascending as byte strings.
#[verifier::external_body]
pub(crate) fn tree_entries(tree: &RbTree<Vec<u8>, Vec<u8>>) -> (entries: Vec<(Vec<u8>, Vec<u8>)>)
    ensures
        lists_in_order(entries@, log_contents(tree_log(*tree))),
{
    let mut entries = Vec::new();
    tree.for_each(|k, v| entries.push((k.to_vec(), v.clone())));
    entries
}

/// `AsHashTree::root_hash` of the tree: the hash kept in its root node,
/// which the same insertions in the same order always give.
#[verifier::external_body]
pub(crate) fn tree_root_hash(tree: &RbTree<Vec<u8>, Vec<u8>>) -> (root: [u8; 32])
    ensures
        root@ == root_digest(tree_log(*tree)),
{
    tree.root_hash()
}

/// `AsHashTree::as_hash_tree` of the tree, `ic_certified_map::labeled` and
/// the CBOR serializer of `serde_cbor`: the tree's hash tree with all keys
/// and values, under `label`, as self-describing CBOR. Writing into a
/// vector does not fail.
#[verifier::external_body]
pub(crate) fn tree_witness(tree: &RbTree<Vec<u8>, Vec<u8>>, label: &[u8]) -> (bytes: Vec<u8>)
    ensures
        bytes@ == witness_bytes(label@, tree_log(*tree)),
{
    let hash_tree = ic_certified_map::labeled(label, tree.as_hash_tree());
    let mut serializer = serde_cbor::ser::Serializer::new(Vec::new());
    serializer.self_describe().unwrap();
    hash_tree.serialize(&mut serializer).unwrap();
    serializer.into_inner()
}

/// `RbTree::witness` and the CBOR serializer of `serde_cbor`: the hash
/// tree that proves what the tree holds under `key`, or that it holds
/// nothing there, as self-describing CBOR. Writing into a vector does not
/// fail.
#[verifier::external_body]
pub(crate) fn tree_key_witness(tree: &RbTree<Vec<u8>, Vec<u8>>, key: &Vec<u8>) -> (bytes: Vec<u8>)
    ensures
        bytes@ == key_witness_bytes(tree_log(*tree), key@),
{
    let witness = tree.witness(key.as_slice());
    let mut serializer = serde_cbor::ser::Serializer::new(Vec::new());
    serializer.self_describe().unwrap();
    witness.serialize(&mut serializer).unwrap();
    serializer.into_inner()
}

/// One more insertion puts its value under its key and leaves the other
/// keys as they were.
pub proof fn lemma_log_push(log: Seq<(Seq<u8>, Seq<u8>)>, key: Seq<u8>, value: Seq<u8>)
    ensures
        log_contents(log.push((key, value))) == log_contents(log).insert(key, value),
{
    assert(log.push((key, value)).drop_last() =~= log);
}

/// Only the keys of the insertions are keys of what they leave behind, so
/// there are finitely many.
pub proof fn lemma_log_finite(log: Seq<(Seq<u8>, Seq<u8>)>)
    ensures
        log_contents(log).dom().finite(),
    decreases log.len(),
{
    if log.len() > 0 {
        lemma_log_finite(log.drop_last());
    }
}

} // verus!
