//! The membership store: an authenticated map from juror identifier to the
//! encoded history of that juror.

use ic_certified_map::RbTree;
use vstd::prelude::*;

use crate::certified::{
    key_witness_bytes, lemma_log_finite, lemma_log_push, lists_in_order, log_contents,
    root_digest, tree_entries, tree_get, tree_insert, tree_key_witness, tree_log, tree_new,
    tree_root_hash,
};
use crate::error::Error;
use crate::history::{
    active_at, after_remove, can_activate, decode_history, encode_history, from_history, is_active,
    lemma_decode_encode, lemma_encode_len, spec_active_at, spec_is_active, to_history, MAX_HISTORY,
};
use crate::ident::{copy_bytes, ids_of, MAX_KEY_SIZE};
use crate::lex::{
    lemma_ascending_distinct, lemma_ascending_unique, lemma_listing_exists, strictly_ascending,
};
use crate::selection::{draw, expansion, lemma_expand_after_select, selection};

verus! {

/// The histories of all jurors ever added, each under its identifier.
pub struct MembershipStore {
    tree: RbTree<Vec<u8>, Vec<u8>>,
}

/// Why an activation of `id`, whose history is `h`, is refused, if it is.
pub open spec fn add_rejection(id: Seq<u8>, h: Seq<u32>) -> Option<Error> {
    if id.len() > MAX_KEY_SIZE {
        Some(Error::IdentifierTooLong)
    } else if spec_is_active(h) {
        Some(Error::AlreadyActive)
    } else if h.len() >= MAX_HISTORY {
        Some(Error::HistoryFull)
    } else {
        None
    }
}

/// Every store has a pool at every index, and one only: the list that
/// `pool_at` names.
pub proof fn lemma_pool_exists(store: MembershipStore, index: u32)
    ensures
        store.is_pool(index, store.pool_at(index)),
        forall|pool: Seq<Seq<u8>>| store.is_pool(index, pool) ==> pool == store.pool_at(index),
{
    let members = Set::new(|id: Seq<u8>| spec_active_at(store.history(id), index));
    lemma_log_finite(store.insertions());
    assert(members.subset_of(store.raw().dom()));
    vstd::set_lib::lemma_set_subset_finite(store.raw().dom(), members);
    let list = lemma_listing_exists(members);
    assert(store.is_pool(index, list));
    assert forall|pool: Seq<Seq<u8>>| store.is_pool(index, pool) implies pool == store.pool_at(
        index,
    ) by {
        lemma_ascending_unique(pool, store.pool_at(index));
    }
}

/// The pool is decided by the histories: two stores that hold the same
/// history for every identifier have the same pool at every index, and a
/// draw from it under one seed gives the same jurors in the same order.
pub proof fn lemma_selection_reproducible(
    a: MembershipStore,
    b: MembershipStore,
    index: u32,
    count: nat,
    seed: Seq<u8>,
)
    requires
        forall|id: Seq<u8>| a.history(id) == b.history(id),
    ensures
        a.pool_at(index) == b.pool_at(index),
        selection(a.pool_at(index), count, seed) == selection(b.pool_at(index), count, seed),
{
    lemma_pool_exists(a, index);
    lemma_pool_exists(b, index);
    assert forall|id: Seq<u8>| a.pool_at(index).contains(id) <==> b.pool_at(index).contains(
        id,
    ) by {
        assert(a.history(id) == b.history(id));
    }
    lemma_ascending_unique(a.pool_at(index), b.pool_at(index));
}

/// An expansion continues the draw that it expands: the draw of `count`
/// jurors from the pool at `index`, followed by its expansion by `more`, is
/// the draw of `count + more` jurors, and the expansion holds no juror that
/// the draw held.
pub proof fn lemma_pool_expansion(
    store: MembershipStore,
    index: u32,
    count: nat,
    more: nat,
    seed: Seq<u8>,
)
    ensures
        store.pool_at(index).no_duplicates(),
        selection(store.pool_at(index), count, seed) + expansion(
            store.pool_at(index),
            selection(store.pool_at(index), count, seed).len(),
            more,
            seed,
        ) == selection(store.pool_at(index), count + more, seed),
        forall|i: int, j: int|
            0 <= i < selection(store.pool_at(index), count, seed).len() && 0 <= j < expansion(
                store.pool_at(index),
                selection(store.pool_at(index), count, seed).len(),
                more,
                seed,
            ).len() ==> selection(store.pool_at(index), count, seed)[i] != expansion(
                store.pool_at(index),
                selection(store.pool_at(index), count, seed).len(),
                more,
                seed,
            )[j],
{
    lemma_pool_exists(store, index);
    lemma_ascending_distinct(store.pool_at(index));
    lemma_expand_after_select(store.pool_at(index), count, more, seed);
}

impl MembershipStore {
    /// The insertions made into the underlying tree, oldest first: each the
    /// identifier and the encoded history put under it.
    pub closed spec fn insertions(&self) -> Seq<(Seq<u8>, Seq<u8>)> {
        tree_log(self.tree)
    }

    /// The encoded histories that the store holds, by identifier.
    pub open spec fn raw(&self) -> Map<Seq<u8>, Seq<u8>> {
        log_contents(self.insertions())
    }

    /// The history of `id`; empty for an identifier that was never added.
    pub open spec fn history(&self, id: Seq<u8>) -> Seq<u32> {
        if self.raw().contains_key(id) {
            decode_history(self.raw()[id])
        } else {
            Seq::empty()
        }
    }

    /// Every stored value is the encoding of a history of one to
    /// `MAX_HISTORY` transitions, under an identifier of at most
    /// `MAX_KEY_SIZE` bytes.
    pub open spec fn wf(&self) -> bool {
        forall|id: Seq<u8>| #[trigger]
            self.raw().contains_key(id) ==> {
                &&& id.len() <= MAX_KEY_SIZE
                &&& self.raw()[id].len() % 4 == 0
                &&& 4 <= self.raw()[id].len() <= 4 * MAX_HISTORY
            }
    }

    /// Whether `pool` is the pool at `index`: the identifiers that count as
    /// members at `index`, each once, in the key order of the store.
    pub open spec fn is_pool(&self, index: u32, pool: Seq<Seq<u8>>) -> bool {
        &&& strictly_ascending(pool)
        &&& forall|id: Seq<u8>| pool.contains(id) <==> spec_active_at(self.history(id), index)
    }

    /// The pool at `index`: the one list that `is_pool` describes.
    pub open spec fn pool_at(&self, index: u32) -> Seq<Seq<u8>> {
        choose|pool: Seq<Seq<u8>>| self.is_pool(index, pool)
    }

    /// A store that holds no juror.
    pub fn new() -> (store: Self)
        ensures
            store.wf(),
            store.insertions() == Seq::<(Seq<u8>, Seq<u8>)>::empty(),
            forall|id: Seq<u8>| store.history(id) == Seq::<u32>::empty(),
    {
        MembershipStore { tree: tree_new() }
    }

    /// The history of `id`, or `None` for an identifier that was never added.
    pub fn get_history(&self, id: &Vec<u8>) -> (found: Option<Vec<u32>>)
        ensures
            found is Some <==> self.raw().contains_key(id@),
            found is Some ==> found->0@ == self.history(id@),
            found is None ==> self.history(id@) == Seq::<u32>::empty(),
    {
        match tree_get(&self.tree, id) {
            Some(bytes) => Some(to_history(&bytes)),
            None => None,
        }
    }

    /// Records that `id` became active at `at_index`. An identifier never
    /// seen gets the history `[at_index]`; an inactive one whose history has
    /// room gets `at_index` appended. An identifier that is active, one whose
    /// history is full and one that is too long are refused, and the store is
    /// then left as it was.
    pub fn record_add(&mut self, id: &Vec<u8>, at_index: u32) -> (r: Result<(), Error>)
        requires
            old(self).wf(),
        ensures
            final(self).wf(),
            match r {
                Ok(()) => {
                    &&& add_rejection(id@, old(self).history(id@)) is None
                    &&& final(self).history(id@) == old(self).history(id@).push(at_index)
                    &&& final(self).insertions() == old(self).insertions().push(
                        (id@, encode_history(old(self).history(id@).push(at_index))),
                    )
                },
                Err(e) => {
                    &&& add_rejection(id@, old(self).history(id@)) == Some(e)
                    &&& *final(self) == *old(self)
                },
            },
            r is Ok <==> id@.len() <= MAX_KEY_SIZE && can_activate(old(self).history(id@)),
            forall|other: Seq<u8>|
                other != id@ ==> final(self).history(other) == old(self).history(other),
    {
        if id.len() > MAX_KEY_SIZE {
            return Err(Error::IdentifierTooLong);
        }
        let mut history: Vec<u32> = match tree_get(&self.tree, id) {
            Some(bytes) => to_history(&bytes),
            None => Vec::new(),
        };
        if is_active(&history) {
            return Err(Error::AlreadyActive);
        }
        if history.len() >= MAX_HISTORY {
            return Err(Error::HistoryFull);
        }
        history.push(at_index);
        self.put(id, &history);
        Ok(())
    }

    /// Records that `id` became inactive at `at_index`. Nothing changes for
    /// an identifier that was never added or is inactive already.
    pub fn record_remove(&mut self, id: &Vec<u8>, at_index: u32)
        requires
            old(self).wf(),
        ensures
            final(self).wf(),
            final(self).history(id@) == after_remove(old(self).history(id@), at_index),
            !spec_is_active(old(self).history(id@)) ==> *final(self) == *old(self),
            spec_is_active(old(self).history(id@)) ==> final(self).insertions() == old(
                self,
            ).insertions().push((id@, encode_history(old(self).history(id@).push(at_index)))),
            forall|other: Seq<u8>|
                other != id@ ==> final(self).history(other) == old(self).history(other),
    {
        match tree_get(&self.tree, id) {
            Some(bytes) => {
                let mut history = to_history(&bytes);
                if is_active(&history) {
                    history.push(at_index);
                    self.put(id, &history);
                }
            },
            None => {},
        }
    }

    /// Puts `history` under `id`.
    fn put(&mut self, id: &Vec<u8>, history: &Vec<u32>)
        requires
            old(self).wf(),
            id@.len() <= MAX_KEY_SIZE,
            1 <= history@.len() <= MAX_HISTORY,
        ensures
            final(self).wf(),
            final(self).history(id@) == history@,
            final(self).insertions() == old(self).insertions().push(
                (id@, encode_history(history@)),
            ),
            forall|other: Seq<u8>|
                other != id@ ==> final(self).history(other) == old(self).history(other),
    {
        let bytes = from_history(history);
        proof {
            lemma_log_push(self.insertions(), id@, bytes@);
            lemma_encode_len(history@);
            lemma_decode_encode(history@);
        }
        let ghost before = self.raw();
        tree_insert(&mut self.tree, copy_bytes(id), bytes);
        proof {
            assert(self.raw() == before.insert(id@, bytes@));
            assert forall|k: Seq<u8>| #[trigger] self.raw().contains_key(k) implies {
                &&& k.len() <= MAX_KEY_SIZE
                &&& self.raw()[k].len() % 4 == 0
                &&& 4 <= self.raw()[k].len() <= 4 * MAX_HISTORY
            } by {
                if k != id@ {
                    assert(before.contains_key(k));
                }
            }
        }
    }

    /// The pool at `index`: the identifiers that count as members at
    /// `index`, in the key order of the store. An identifier counts where
    /// it is active now and became so no later than `index`, or where
    /// `index` falls between one of its activations and the deactivation
    /// that followed.
    pub fn collect_pool(&self, index: u32) -> (pool: Vec<Vec<u8>>)
        ensures
            self.is_pool(index, ids_of(pool@)),
            ids_of(pool@) == self.pool_at(index),
    {
        let entries = tree_entries(&self.tree);
        let ghost contents = self.raw();
        let ghost keys = Seq::new(entries@.len(), |i: int| entries@[i].0@);
        let mut pool: Vec<Vec<u8>> = Vec::new();
        let ghost mut source: Seq<int> = Seq::empty();
        let mut i: usize = 0;
        while i < entries.len()
            invariant
                i <= entries@.len(),
                contents == self.raw(),
                keys == Seq::new(entries@.len(), |i: int| entries@[i].0@),
                lists_in_order(entries@, contents),
                source.len() == pool@.len(),
                forall|a: int| 0 <= a < source.len() ==> 0 <= #[trigger] source[a] < i,
                forall|a: int, b: int| 0 <= a < b < source.len() ==> source[a] < source[b],
                forall|a: int|
                    0 <= a < source.len() ==> (#[trigger] pool@[a])@ == entries@[source[a]].0@
                        && spec_active_at(decode_history(entries@[source[a]].1@), index),
                forall|e: int|
                    0 <= e < i && spec_active_at(
                        decode_history((#[trigger] entries@[e]).1@),
                        index,
                    ) ==> exists|a: int| 0 <= a < source.len() && source[a] == e,
            decreases entries.len() - i,
        {
            let history = to_history(&entries[i].1);
            if active_at(&history, index) {
                pool.push(copy_bytes(&entries[i].0));
                proof {
                    let ghost before = source;
                    source = source.push(i as int);
                    assert forall|e: int|
                        0 <= e < i + 1 && spec_active_at(
                            decode_history((#[trigger] entries@[e]).1@),
                            index,
                        ) implies exists|a: int| 0 <= a < source.len() && source[a] == e by {
                        if e < i {
                            let a = choose|a: int| 0 <= a < before.len() && before[a] == e;
                            assert(source[a] == e);
                        } else {
                            assert(source[source.len() - 1] == e);
                        }
                    }
                }
            }
            i += 1;
        }
        proof {
            let ids = ids_of(pool@);
            assert forall|a: int, b: int| 0 <= a < b < ids.len() implies crate::lex::lex_less(
                ids[a],
                ids[b],
            ) by {
                assert(pool@[a]@ == keys[source[a]]);
                assert(pool@[b]@ == keys[source[b]]);
            }
            assert forall|id: Seq<u8>| ids.contains(id) <==> spec_active_at(
                self.history(id),
                index,
            ) by {
                if ids.contains(id) {
                    let a = choose|a: int| 0 <= a < ids.len() && ids[a] == id;
                    assert(pool@[a]@ == entries@[source[a]].0@);
                    assert(contents.contains_key(entries@[source[a]].0@));
                }
                if spec_active_at(self.history(id), index) {
                    assert(contents.contains_key(id));
                    let e = choose|e: int| 0 <= e < entries@.len() && entries@[e].0@ == id;
                    assert(contents.contains_key(entries@[e].0@));
                    let a = choose|a: int| 0 <= a < source.len() && source[a] == e;
                    assert(pool@[a]@ == id);
                    assert(ids[a] == id);
                }
            }
            assert(self.is_pool(index, ids));
            lemma_ascending_unique(ids, self.pool_at(index));
        }
        pool
    }

    /// Draws `count` jurors, or all where there are fewer, from the pool at
    /// `index` under `seed`.
    pub fn make_jury(&self, index: u32, count: u32, seed: &[u8; 32]) -> (jury: Vec<Vec<u8>>)
        ensures
            ids_of(jury@) == selection(self.pool_at(index), count as nat, seed@),
            jury@.len() <= count,
    {
        let pool = self.collect_pool(index);
        draw(&pool, count as usize, seed)
    }

    /// The proof of what the store holds under `id`, or that it holds
    /// nothing there: a hash tree whose root is the root hash of the store.
    pub fn witness(&self, id: &Vec<u8>) -> (proof_bytes: Vec<u8>)
        ensures
            proof_bytes@ == key_witness_bytes(self.insertions(), id@),
    {
        tree_key_witness(&self.tree, id)
    }

    /// The root hash of the authenticated tree that holds the store.
    pub fn root_hash(&self) -> (root: [u8; 32])
        ensures
            root@ == root_digest(self.insertions()),
    {
        tree_root_hash(&self.tree)
    }
}

} // verus!
