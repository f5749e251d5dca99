//! The registry: the membership store, the pending entries and the ledger
//! under one owner, and the operations that change them together.
//!
//! Each operation that changes the record takes one epoch: its entry is
//! stamped with the number of entries made before it, committed or
//! pending. A commit seals each pending entry into a block of its own, in
//! order, so the position of a block in the ledger is the epoch of its
//! entry and a commit leaves the epoch of the registry as it is.

use vstd::prelude::*;

use crate::batch::{commitment_of, witness_of, Data, DataView, Kind, PendingBatch};
use crate::digest::{genesis_hash, hash_bytes, hex_decoded, spec_genesis, to_hash, HASH_SIZE};
use crate::error::Error;
use crate::history::{after_remove, encode_history, is_active, spec_is_active, MAX_HISTORY};
use crate::ident::{
    copy_bytes, copy_ids_from, ids_of, listed_before, same_bytes, MAX_KEY_SIZE,
};
use crate::ledger::{data_of, sealed, sized, tip_hash, Block, BlockView, Ledger};
use crate::replay::{
    admissible, apply_entry, lemma_history_replays, member_after, replay, stamped,
};
use crate::selection::{draw, expansion, selection};
use crate::store::{add_rejection, MembershipStore};

verus! {

/// A certificate as the registry reads it: the bytes that are kept with
/// the blocks, and the certified data that the certificate attests to.
pub struct Certificate {
    /// The certificate as it was issued.
    pub bytes: Vec<u8>,
    /// The commitment that the certificate holds.
    pub certified_data: Vec<u8>,
}

/// A selection that waits for its random seed.
pub struct PendingSeedRequest {
    index: u32,
    count: u32,
}

impl PendingSeedRequest {
    /// The epoch whose pool is drawn from.
    pub closed spec fn spec_index(&self) -> u32 {
        self.index
    }

    /// The number of jurors asked for.
    pub closed spec fn spec_count(&self) -> u32 {
        self.count
    }

    /// The epoch whose pool is drawn from.
    #[verifier::when_used_as_spec(spec_index)]
    pub fn index(&self) -> (index: u32)
        ensures
            index == self.spec_index(),
    {
        self.index
    }

    /// The number of jurors asked for.
    #[verifier::when_used_as_spec(spec_count)]
    pub fn count(&self) -> (count: u32)
        ensures
            count == self.spec_count(),
    {
        self.count
    }
}

/// The entry with these parts.
pub open spec fn entry_of(kind: Kind, jurors: Seq<Seq<u8>>, rand: Seq<u8>, epoch: u32) -> DataView {
    DataView { kind, jurors, rand, jurors_index: epoch }
}

/// Whether each entry that records a draw carries a seed of 32 bytes, and
/// each other entry carries none.
pub open spec fn seeded(entries: Seq<DataView>) -> bool {
    forall|i: int|
        0 <= i < entries.len() ==> (#[trigger] entries[i]).rand.len() == (if entries[i].kind
            == Kind::Select || entries[i].kind == Kind::Expand {
            HASH_SIZE as nat
        } else {
            0
        })
}

/// Why the `p`-th of the jurors `ids` cannot be added to `store`, if it
/// cannot: for what its own history says, or because the same identifier
/// stands earlier in the list and would be active by then.
pub open spec fn refusal_at(store: MembershipStore, ids: Seq<Seq<u8>>, p: int) -> Option<Error> {
    let own = add_rejection(ids[p], store.history(ids[p]));
    if own is Some {
        own
    } else if ids.take(p).contains(ids[p]) {
        Some(Error::AlreadyActive)
    } else {
        None
    }
}

/// Why the jurors `ids` from position `from` on cannot be added to
/// `store`: the refusal of the first of them that is refused.
pub open spec fn first_refusal(store: MembershipStore, ids: Seq<Seq<u8>>, from: int) -> Option<
    Error,
>
    decreases ids.len() - from,
{
    if from < 0 || from >= ids.len() {
        None
    } else if refusal_at(store, ids, from) is Some {
        refusal_at(store, ids, from)
    } else {
        first_refusal(store, ids, from + 1)
    }
}

/// The insertions that an addition of the jurors `ids` at `index` makes
/// into the tree of `store`: for each juror, in the order of the list, its
/// history with `index` appended.
pub open spec fn added_insertions(store: MembershipStore, ids: Seq<Seq<u8>>, index: u32) -> Seq<
    (Seq<u8>, Seq<u8>),
> {
    Seq::new(ids.len(), |p: int| (ids[p], encode_history(store.history(ids[p]).push(index))))
}

/// The insertions that a removal of the first `upto` of the jurors `ids`
/// at `index` makes into the tree of `store`: for each juror that is
/// active, where the list names it first, its history with `index`
/// appended.
pub open spec fn removed_insertions(
    store: MembershipStore,
    ids: Seq<Seq<u8>>,
    index: u32,
    upto: int,
) -> Seq<(Seq<u8>, Seq<u8>)>
    decreases upto,
{
    if upto <= 0 {
        Seq::empty()
    } else {
        let before = removed_insertions(store, ids, index, upto - 1);
        let id = ids[upto - 1];
        if spec_is_active(store.history(id)) && !ids.take(upto - 1).contains(id) {
            before.push((id, encode_history(store.history(id).push(index))))
        } else {
            before
        }
    }
}

/// Where none of the first `p` jurors is refused, the first refusal is
/// found from `p` on.
pub proof fn lemma_first_refusal_skips(store: MembershipStore, ids: Seq<Seq<u8>>, p: int)
    requires
        0 <= p <= ids.len(),
        forall|q: int| 0 <= q < p ==> refusal_at(store, ids, q) is None,
    ensures
        first_refusal(store, ids, 0) == first_refusal(store, ids, p),
    decreases p,
{
    if p > 0 {
        lemma_first_refusal_skips(store, ids, p - 1);
    }
}

/// The membership store, the pending entries and the ledger.
pub struct Registry {
    store: MembershipStore,
    batch: PendingBatch,
    ledger: Ledger,
}

impl Registry {
    /// The membership store.
    pub closed spec fn store(&self) -> MembershipStore {
        self.store
    }

    /// The ledger.
    pub closed spec fn ledger(&self) -> Ledger {
        self.ledger
    }

    /// The pending entries, oldest first.
    pub closed spec fn pending(&self) -> Seq<DataView> {
        self.batch@
    }

    /// The committed blocks, oldest first.
    pub open spec fn blocks(&self) -> Seq<BlockView> {
        self.ledger()@
    }

    /// The hash that the ledger started from.
    pub open spec fn genesis(&self) -> Seq<u8> {
        self.ledger().genesis()
    }

    /// All entries made so far, committed ones first.
    pub open spec fn entries(&self) -> Seq<DataView> {
        data_of(self.blocks()) + self.pending()
    }

    /// The epoch that the next entry gets: the number of committed blocks
    /// plus the number of pending entries.
    pub open spec fn epoch(&self) -> nat {
        self.blocks().len() + self.pending().len()
    }

    /// The history of `id` in the membership store.
    pub open spec fn history(&self, id: Seq<u8>) -> Seq<u32> {
        self.store().history(id)
    }

    /// The hash that the next block has to carry.
    pub open spec fn tip(&self) -> Seq<u8> {
        tip_hash(self.blocks(), self.genesis())
    }

    /// The parts are well formed each, the epoch fits a `u32`, each entry
    /// carries its position as its epoch, and the membership store holds
    /// for each identifier the history that the entries give it.
    pub open spec fn wf(&self) -> bool {
        &&& self.store().wf()
        &&& self.ledger().wf()
        &&& sized(self.pending())
        &&& self.epoch() <= u32::MAX
        &&& stamped(self.entries())
        &&& seeded(self.entries())
        &&& admissible(self.entries())
        &&& forall|id: Seq<u8>| #[trigger] self.history(id) == replay(self.entries(), id)
    }

    /// An empty registry whose ledger starts from `genesis`.
    pub fn with_genesis(genesis: [u8; 32]) -> (registry: Self)
        ensures
            registry.wf(),
            registry.blocks() == Seq::<BlockView>::empty(),
            registry.pending() == Seq::<DataView>::empty(),
            registry.genesis() == genesis@,
            forall|id: Seq<u8>| registry.history(id) == Seq::<u32>::empty(),
    {
        let registry = Registry {
            store: MembershipStore::new(),
            batch: PendingBatch::new(),
            ledger: Ledger::new(genesis),
        };
        proof {
            assert(registry.entries() =~= Seq::<DataView>::empty());
        }
        registry
    }

    /// An empty registry. Its ledger starts from the hash that
    /// `previous_hash` spells in hexadecimal digits, where that is a hash
    /// of 32 bytes, and from 32 zero bytes otherwise.
    pub fn new(previous_hash: &Option<String>) -> (registry: Self)
        ensures
            registry.wf(),
            registry.blocks() == Seq::<BlockView>::empty(),
            registry.pending() == Seq::<DataView>::empty(),
            registry.genesis() == spec_genesis(
                match previous_hash {
                    Some(text) => hex_decoded(text@),
                    None => None,
                },
            ),
            forall|id: Seq<u8>| registry.history(id) == Seq::<u32>::empty(),
    {
        Registry::with_genesis(genesis_hash(previous_hash))
    }

    /// The epoch that the next entry gets.
    pub fn get_index(&self) -> (index: u32)
        requires
            self.wf(),
        ensures
            index == self.epoch(),
    {
        (self.ledger.len() + self.batch.len()) as u32
    }

    /// The number of pending entries.
    pub fn get_pending(&self) -> (pending: u32)
        requires
            self.wf(),
        ensures
            pending == self.pending().len(),
    {
        self.batch.len() as u32
    }

    /// A copy of the `index`-th pending entry, or `NotFound`.
    pub fn get_pending_entry(&self, index: u32) -> (r: Result<Data, Error>)
        ensures
            r is Ok <==> index < self.pending().len(),
            r is Ok ==> r->Ok_0@ == self.pending()[index as int],
            r is Err ==> r->Err_0 == Error::NotFound,
    {
        if (index as usize) < self.batch.len() {
            Ok(self.batch.get(index as usize))
        } else {
            Err(Error::NotFound)
        }
    }

    /// A copy of the committed block at `index`, or `NotFound`.
    pub fn get_block(&self, index: u32) -> (r: Result<Block, Error>)
        ensures
            r is Ok <==> index < self.blocks().len(),
            r is Ok ==> r->Ok_0@ == self.blocks()[index as int],
            r is Err ==> r->Err_0 == Error::NotFound,
    {
        self.ledger.get_block(index)
    }

    /// The jurors of the committed block at `index`, or `NotFound`.
    pub fn get_jurors(&self, index: u32) -> (r: Result<Vec<Vec<u8>>, Error>)
        ensures
            r is Ok <==> index < self.blocks().len(),
            r is Ok ==> ids_of(r->Ok_0@) == self.blocks()[index as int].data.jurors,
            r is Err ==> r->Err_0 == Error::NotFound,
    {
        self.ledger.get_jurors(index)
    }

    /// The number of jurors of the committed block at `index`, or
    /// `NotFound`.
    pub fn get_size(&self, index: u32) -> (r: Result<u32, Error>)
        requires
            self.wf(),
        ensures
            r is Ok <==> index < self.blocks().len(),
            r is Ok ==> r->Ok_0 == self.blocks()[index as int].data.jurors.len(),
            r is Err ==> r->Err_0 == Error::NotFound,
    {
        self.ledger.get_size(index)
    }

    /// The hash that the next block has to carry: the hash of the entry of
    /// the last block, or the genesis hash while there is no block.
    pub fn get_previous_hash(&self) -> (hash: [u8; 32])
        ensures
            hash@ == self.tip(),
    {
        self.ledger.get_previous_hash()
    }

    /// The history of `id`, or `None` for an identifier never added.
    pub fn get_history(&self, id: &Vec<u8>) -> (found: Option<Vec<u32>>)
        ensures
            found is Some <==> self.store().raw().contains_key(id@),
            found is Some ==> found->0@ == self.history(id@),
            found is None ==> self.history(id@) == Seq::<u32>::empty(),
    {
        self.store.get_history(id)
    }

    /// The pool at `index`, in the key order of the store. For an epoch
    /// that the record has reached, these are the identifiers that are
    /// members after the entries up to and including the one of that
    /// epoch.
    pub fn pool_at(&self, index: u32) -> (pool: Vec<Vec<u8>>)
        requires
            self.wf(),
        ensures
            ids_of(pool@) == self.store().pool_at(index),
            self.store().is_pool(index, ids_of(pool@)),
            index < self.epoch() ==> forall|id: Seq<u8>|
                ids_of(pool@).contains(id) <==> member_after(self.entries().take(index + 1), id),
    {
        let pool = self.store.collect_pool(index);
        proof {
            if index < self.epoch() {
                assert forall|id: Seq<u8>| ids_of(pool@).contains(id) <==> member_after(
                    self.entries().take(index + 1),
                    id,
                ) by {
                    assert(self.history(id) == replay(self.entries(), id));
                    lemma_history_replays(self.entries(), id, index);
                }
            }
        }
        pool
    }

    /// The root hash of the authenticated tree of the membership store.
    pub fn store_root(&self) -> (root: [u8; 32])
        ensures
            root@ == crate::certified::root_digest(self.store().insertions()),
    {
        self.store.root_hash()
    }

    /// Adds the jurors `new_jurors` to the pool, at the epoch of the
    /// entry that records it, and gives that epoch. The addition is refused
    /// as a whole, and nothing changes, where the caller is not permitted
    /// or one of the jurors cannot be added: one that is active already,
    /// one whose history is full, one that is named twice, one whose
    /// identifier is too long.
    pub fn add(&mut self, permitted: bool, new_jurors: Vec<Vec<u8>>) -> (r: Result<u32, Error>)
        requires
            old(self).wf(),
            old(self).epoch() < u32::MAX,
            new_jurors@.len() <= u32::MAX,
        ensures
            final(self).wf(),
            match r {
                Ok(index) => {
                    &&& permitted
                    &&& first_refusal(old(self).store(), ids_of(new_jurors@), 0) is None
                    &&& index == old(self).epoch()
                    &&& final(self).epoch() == old(self).epoch() + 1
                    &&& final(self).ledger() == old(self).ledger()
                    &&& final(self).pending() == old(self).pending().push(
                        entry_of(Kind::Add, ids_of(new_jurors@), Seq::empty(), index),
                    )
                    &&& final(self).store().insertions() == old(self).store().insertions()
                        + added_insertions(old(self).store(), ids_of(new_jurors@), index)
                    &&& forall|id: Seq<u8>| #[trigger]
                        final(self).history(id) == if ids_of(new_jurors@).contains(id) {
                            old(self).history(id).push(index)
                        } else {
                            old(self).history(id)
                        }
                },
                Err(e) => {
                    &&& *final(self) == *old(self)
                    &&& if !permitted {
                        e == Error::Unauthorized
                    } else {
                        first_refusal(old(self).store(), ids_of(new_jurors@), 0) == Some(e)
                    }
                },
            },
    {
        if !permitted {
            return Err(Error::Unauthorized);
        }
        let ghost ids = ids_of(new_jurors@);
        let n = new_jurors.len();
        let mut p: usize = 0;
        while p < n
            invariant
                p <= n == new_jurors@.len(),
                permitted,
                ids == ids_of(new_jurors@),
                *self == *old(self),
                self.wf(),
                forall|q: int| 0 <= q < p ==> refusal_at(self.store(), ids, q) is None,
            decreases n - p,
        {
            let id = &new_jurors[p];
            proof {
                lemma_first_refusal_skips(self.store(), ids, p as int);
                assert(ids[p as int] == id@);
            }
            if id.len() > MAX_KEY_SIZE {
                return Err(Error::IdentifierTooLong);
            }
            let history: Vec<u32> = match self.store.get_history(id) {
                Some(h) => h,
                None => Vec::new(),
            };
            if is_active(&history) {
                return Err(Error::AlreadyActive);
            }
            if history.len() >= MAX_HISTORY {
                return Err(Error::HistoryFull);
            }
            if listed_before(&new_jurors, p, id) {
                return Err(Error::AlreadyActive);
            }
            p += 1;
        }
        proof {
            lemma_first_refusal_skips(self.store(), ids, n as int);
        }
        let index = self.get_index();
        let mut p: usize = 0;
        while p < n
            invariant
                p <= n == new_jurors@.len(),
                ids == ids_of(new_jurors@),
                self.batch == old(self).batch,
                self.ledger == old(self).ledger,
                self.store().wf(),
                index == old(self).epoch(),
                forall|q: int| 0 <= q < n ==> refusal_at(old(self).store(), ids, q) is None,
                forall|id: Seq<u8>| #[trigger]
                    self.history(id) == if ids.take(p as int).contains(id) {
                        old(self).history(id).push(index)
                    } else {
                        old(self).history(id)
                    },
                self.store().insertions() == old(self).store().insertions() + added_insertions(
                    old(self).store(),
                    ids,
                    index,
                ).take(p as int),
            decreases n - p,
        {
            let ghost before = *self;
            proof {
                assert(ids[p as int] == new_jurors@[p as int]@);
                assert(refusal_at(old(self).store(), ids, p as int) is None);
                assert(!ids.take(p as int).contains(ids[p as int]));
                assert(self.history(ids[p as int]) == old(self).history(ids[p as int]));
            }
            let done = self.store.record_add(&new_jurors[p], index);
            assert(done is Ok);
            proof {
                let added = added_insertions(old(self).store(), ids, index);
                assert(added.take(p + 1) =~= added.take(p as int).push(added[p as int]));
                assert(self.store().insertions() =~= old(self).store().insertions() + added.take(
                    p + 1,
                ));
                let shorter = ids.take(p as int);
                let longer = ids.take(p + 1);
                assert(longer =~= shorter.push(ids[p as int]));
                assert forall|id: Seq<u8>| #[trigger]
                    self.history(id) == if longer.contains(id) {
                        old(self).history(id).push(index)
                    } else {
                        old(self).history(id)
                    } by {
                    if id == ids[p as int] {
                        assert(longer[p as int] == id);
                    } else {
                        assert(self.history(id) == before.history(id));
                        if longer.contains(id) {
                            let k = choose|k: int| 0 <= k < longer.len() && longer[k] == id;
                            assert(shorter[k] == id);
                        }
                        if shorter.contains(id) {
                            let k = choose|k: int| 0 <= k < shorter.len() && shorter[k] == id;
                            assert(longer[k] == id);
                        }
                    }
                }
            }
            p += 1;
        }
        let entry = Data {
            kind: Kind::Add,
            jurors: new_jurors,
            rand: Vec::new(),
            jurors_index: index,
        };
        let ghost mid = *self;
        proof {
            assert(ids.take(n as int) =~= ids);
            assert(added_insertions(old(self).store(), ids, index).take(n as int)
                =~= added_insertions(old(self).store(), ids, index));
            assert(entry@ == entry_of(Kind::Add, ids, Seq::empty(), index));
            assert forall|id: Seq<u8>| entry@.jurors.contains(id) implies !spec_is_active(
                replay(self.entries(), id),
            ) by {
                let k = choose|k: int| 0 <= k < ids.len() && ids[k] == id;
                assert(refusal_at(old(self).store(), ids, k) is None);
                assert(old(self).history(id) == replay(old(self).entries(), id));
            }
            assert forall|id: Seq<u8>| #[trigger]
                self.history(id) == apply_entry(replay(self.entries(), id), entry@, id) by {
                assert(old(self).history(id) == replay(old(self).entries(), id));
            }
        }
        self.record(&entry);
        proof {
            assert forall|id: Seq<u8>| #[trigger]
                self.history(id) == if ids.contains(id) {
                    old(self).history(id).push(index)
                } else {
                    old(self).history(id)
                } by {
                assert(self.history(id) == mid.history(id));
            }
        }
        Ok(index)
    }

    /// Removes the jurors `remove_jurors` from the pool, at the epoch of
    /// the entry that records it, and gives that epoch. A juror that is not
    /// active is passed over. Where the caller is not permitted the removal
    /// is refused and nothing changes.
    pub fn remove(&mut self, permitted: bool, remove_jurors: Vec<Vec<u8>>) -> (r: Result<
        u32,
        Error,
    >)
        requires
            old(self).wf(),
            old(self).epoch() < u32::MAX,
            remove_jurors@.len() <= u32::MAX,
        ensures
            final(self).wf(),
            r is Ok <==> permitted,
            match r {
                Ok(index) => {
                    &&& index == old(self).epoch()
                    &&& final(self).epoch() == old(self).epoch() + 1
                    &&& final(self).ledger() == old(self).ledger()
                    &&& final(self).pending() == old(self).pending().push(
                        entry_of(Kind::Remove, ids_of(remove_jurors@), Seq::empty(), index),
                    )
                    &&& final(self).store().insertions() == old(self).store().insertions()
                        + removed_insertions(
                        old(self).store(),
                        ids_of(remove_jurors@),
                        index,
                        remove_jurors@.len() as int,
                    )
                    &&& forall|id: Seq<u8>| #[trigger]
                        final(self).history(id) == if ids_of(remove_jurors@).contains(id) {
                            after_remove(old(self).history(id), index)
                        } else {
                            old(self).history(id)
                        }
                },
                Err(e) => *final(self) == *old(self) && e == Error::Unauthorized,
            },
    {
        if !permitted {
            return Err(Error::Unauthorized);
        }
        let ghost ids = ids_of(remove_jurors@);
        let n = remove_jurors.len();
        let index = self.get_index();
        let mut p: usize = 0;
        while p < n
            invariant
                p <= n == remove_jurors@.len(),
                ids == ids_of(remove_jurors@),
                self.batch == old(self).batch,
                self.ledger == old(self).ledger,
                self.store().wf(),
                forall|id: Seq<u8>| #[trigger]
                    self.history(id) == if ids.take(p as int).contains(id) {
                        after_remove(old(self).history(id), index)
                    } else {
                        old(self).history(id)
                    },
                self.store().insertions() == old(self).store().insertions() + removed_insertions(
                    old(self).store(),
                    ids,
                    index,
                    p as int,
                ),
            decreases n - p,
        {
            let ghost before = *self;
            proof {
                assert(ids[p as int] == remove_jurors@[p as int]@);
            }
            self.store.record_remove(&remove_jurors[p], index);
            proof {
                assert(before.history(ids[p as int]) == if ids.take(p as int).contains(
                    ids[p as int],
                ) {
                    after_remove(old(self).history(ids[p as int]), index)
                } else {
                    old(self).history(ids[p as int])
                });
                let so_far = removed_insertions(old(self).store(), ids, index, p as int);
                let now = removed_insertions(old(self).store(), ids, index, p + 1);
                if spec_is_active(before.history(ids[p as int])) {
                    assert(now == so_far.push(
                        (
                            ids[p as int],
                            encode_history(old(self).history(ids[p as int]).push(index)),
                        ),
                    ));
                    assert(self.store().insertions() =~= old(self).store().insertions() + now);
                } else {
                    assert(now == so_far);
                }
                let shorter = ids.take(p as int);
                let longer = ids.take(p + 1);
                assert(longer =~= shorter.push(ids[p as int]));
                assert forall|id: Seq<u8>| #[trigger]
                    self.history(id) == if longer.contains(id) {
                        after_remove(old(self).history(id), index)
                    } else {
                        old(self).history(id)
                    } by {
                    if id == ids[p as int] {
                        assert(longer[p as int] == id);
                        assert(self.history(id) == after_remove(before.history(id), index));
                    } else {
                        assert(self.history(id) == before.history(id));
                        if longer.contains(id) {
                            let k = choose|k: int| 0 <= k < longer.len() && longer[k] == id;
                            assert(shorter[k] == id);
                        }
                        if shorter.contains(id) {
                            let k = choose|k: int| 0 <= k < shorter.len() && shorter[k] == id;
                            assert(longer[k] == id);
                        }
                    }
                }
            }
            p += 1;
        }
        let entry = Data {
            kind: Kind::Remove,
            jurors: remove_jurors,
            rand: Vec::new(),
            jurors_index: index,
        };
        let ghost mid = *self;
        proof {
            assert(ids.take(n as int) =~= ids);
            assert(entry@ == entry_of(Kind::Remove, ids, Seq::empty(), index));
            assert forall|id: Seq<u8>| #[trigger]
                self.history(id) == apply_entry(replay(self.entries(), id), entry@, id) by {
                assert(old(self).history(id) == replay(old(self).entries(), id));
            }
        }
        self.record(&entry);
        proof {
            assert forall|id: Seq<u8>| #[trigger]
                self.history(id) == if ids.contains(id) {
                    after_remove(old(self).history(id), index)
                } else {
                    old(self).history(id)
                } by {
                assert(self.history(id) == mid.history(id));
            }
        }
        Ok(index)
    }

    /// Appends `entry`, which is stamped with the epoch of the registry and
    /// whose effect on the membership store has been carried out.
    fn record(&mut self, entry: &Data)
        requires
            old(self).store().wf(),
            old(self).ledger().wf(),
            sized(old(self).pending()),
            old(self).epoch() < u32::MAX,
            stamped(old(self).entries()),
            seeded(old(self).entries()),
            admissible(old(self).entries()),
            entry@.jurors_index == old(self).epoch(),
            entry@.jurors.len() <= u32::MAX,
            entry@.rand.len() == (if entry@.kind == Kind::Select || entry@.kind == Kind::Expand {
                HASH_SIZE as nat
            } else {
                0
            }),
            entry@.kind == Kind::Add ==> forall|id: Seq<u8>|
                entry@.jurors.contains(id) ==> !spec_is_active(replay(old(self).entries(), id)),
            forall|id: Seq<u8>| #[trigger]
                old(self).history(id) == apply_entry(replay(old(self).entries(), id), entry@, id),
        ensures
            final(self).wf(),
            final(self).store() == old(self).store(),
            final(self).ledger() == old(self).ledger(),
            final(self).pending() == old(self).pending().push(entry@),
    {
        self.batch.push_pending(entry);
        proof {
            lemma_entry_pushed(old(self).entries(), self.entries(), entry@);
            assert forall|id: Seq<u8>| #[trigger]
                self.history(id) == replay(self.entries(), id) by {
                assert(old(self).history(id) == apply_entry(
                    replay(old(self).entries(), id),
                    entry@,
                    id,
                ));
                assert(replay(self.entries(), id) == apply_entry(
                    replay(old(self).entries(), id),
                    entry@,
                    id,
                ));
            }
            assert forall|i: int| 0 <= i < self.pending().len() implies (
            #[trigger] self.pending()[i]).jurors.len() <= u32::MAX by {
                if i < old(self).pending().len() {
                    assert(old(self).pending()[i].jurors.len() <= u32::MAX);
                }
            }
        }
    }

    /// The first half of a selection: refuses a caller that is not
    /// permitted and notes what is asked for. The selection is drawn when the seed
    /// has arrived, by `complete_select`.
    pub fn begin_select(&self, permitted: bool, index: u32, count: u32) -> (r: Result<
        PendingSeedRequest,
        Error,
    >)
        ensures
            r is Ok <==> permitted,
            r is Ok ==> r->Ok_0.spec_index() == index && r->Ok_0.spec_count() == count,
            r is Err ==> r->Err_0 == Error::Unauthorized,
    {
        if permitted {
            Ok(PendingSeedRequest { index, count })
        } else {
            Err(Error::Unauthorized)
        }
    }

    /// The second half of a selection: draws the jurors under the seed
    /// `raw_seed` from the pool at the epoch that the request names, as
    /// the membership store stands now, and records the draw at the epoch
    /// that the registry has reached now. A seed that is not 32 bytes long
    /// is refused and nothing changes.
    pub fn complete_select(&mut self, request: PendingSeedRequest, raw_seed: &Vec<u8>) -> (r:
        Result<u32, Error>)
        requires
            old(self).wf(),
            old(self).epoch() < u32::MAX,
        ensures
            final(self).wf(),
            r is Ok <==> raw_seed@.len() == HASH_SIZE,
            match r {
                Ok(at) => {
                    &&& at == old(self).epoch()
                    &&& final(self).epoch() == old(self).epoch() + 1
                    &&& final(self).store() == old(self).store()
                    &&& final(self).ledger() == old(self).ledger()
                    &&& final(self).pending() == old(self).pending().push(
                        entry_of(
                            Kind::Select,
                            selection(
                                old(self).store().pool_at(request.spec_index()),
                                request.spec_count() as nat,
                                raw_seed@,
                            ),
                            raw_seed@,
                            at,
                        ),
                    )
                },
                Err(e) => *final(self) == *old(self) && e == Error::BadSeedLength,
            },
    {
        let seed = match to_hash(raw_seed) {
            Some(seed) => seed,
            None => {
                return Err(Error::BadSeedLength);
            },
        };
        let at = self.get_index();
        let jurors = self.store.make_jury(request.index, request.count, &seed);
        let entry = Data {
            kind: Kind::Select,
            jurors,
            rand: copy_bytes(raw_seed),
            jurors_index: at,
        };
        proof {
            assert forall|id: Seq<u8>| #[trigger]
                self.history(id) == apply_entry(replay(self.entries(), id), entry@, id) by {
                assert(self.history(id) == replay(self.entries(), id));
            }
        }
        self.record(&entry);
        Ok(at)
    }

    /// Why an expansion of the draw in the block at `index` is refused, if
    /// it is.
    pub open spec fn expand_refusal(&self, permitted: bool, index: u32) -> Option<Error> {
        if !permitted {
            Some(Error::Unauthorized)
        } else if index >= self.blocks().len() {
            Some(Error::NotFound)
        } else if self.blocks()[index as int].data.rand.len() != HASH_SIZE {
            Some(Error::BadSeedLength)
        } else {
            None
        }
    }

    /// Draws `count` more jurors for the draw that the committed block at
    /// `index` records: the draw is made again from the pool at `index`,
    /// as the membership store stands now, under the seed of that block and
    /// for `count` more jurors than the block has, and what it gives
    /// beyond the number that the block has is recorded at the epoch that
    /// the registry has reached. Refused, with nothing changed, where the
    /// caller is not permitted, the ledger has no block at `index`, or that
    /// block carries no seed of 32 bytes.
    pub fn expand(&mut self, permitted: bool, index: u32, count: u32) -> (r: Result<u32, Error>)
        requires
            old(self).wf(),
            old(self).epoch() < u32::MAX,
        ensures
            final(self).wf(),
            match r {
                Ok(at) => {
                    &&& old(self).expand_refusal(permitted, index) is None
                    &&& at == old(self).epoch()
                    &&& final(self).epoch() == old(self).epoch() + 1
                    &&& final(self).store() == old(self).store()
                    &&& final(self).ledger() == old(self).ledger()
                    &&& final(self).pending() == old(self).pending().push(
                        entry_of(
                            Kind::Expand,
                            expansion(
                                old(self).store().pool_at(index),
                                old(self).blocks()[index as int].data.jurors.len(),
                                count as nat,
                                old(self).blocks()[index as int].data.rand,
                            ),
                            old(self).blocks()[index as int].data.rand,
                            at,
                        ),
                    )
                },
                Err(e) => {
                    &&& *final(self) == *old(self)
                    &&& old(self).expand_refusal(permitted, index) == Some(e)
                },
            },
    {
        if !permitted {
            return Err(Error::Unauthorized);
        }
        let block = match self.ledger.get_block(index) {
            Ok(block) => block,
            Err(e) => {
                return Err(e);
            },
        };
        let seed = match to_hash(&block.data.rand) {
            Some(seed) => seed,
            None => {
                return Err(Error::BadSeedLength);
            },
        };
        let already: usize = block.data.jurors.len();
        let target: usize = if count as usize > usize::MAX - already {
            usize::MAX
        } else {
            already + count as usize
        };
        let at = self.get_index();
        let pool = self.store.collect_pool(index);
        let whole = draw(&pool, target, &seed);
        let skip: usize = if already < whole.len() {
            already
        } else {
            whole.len()
        };
        let jurors = copy_ids_from(&whole, skip);
        let entry = Data {
            kind: Kind::Expand,
            jurors,
            rand: copy_bytes(&block.data.rand),
            jurors_index: at,
        };
        proof {
            let ids = ids_of(pool@);
            assert(ids.len() == pool@.len() == pool.len());
            assert(selection(ids, target as nat, seed@) == selection(
                ids,
                already as nat + count as nat,
                seed@,
            ));
            assert(ids_of(whole@).len() == whole@.len());
            assert(entry@.jurors == expansion(ids, already as nat, count as nat, seed@));
            assert forall|id: Seq<u8>| #[trigger]
                self.history(id) == apply_entry(replay(self.entries(), id), entry@, id) by {
                assert(self.history(id) == replay(self.entries(), id));
            }
        }
        self.record(&entry);
        Ok(at)
    }

    /// The commitment to the pending entries as they are, for the ledger as
    /// it is: the certified data that a certificate has to hold for a
    /// commit to go through. `None` while nothing is pending.
    pub fn set_certificate(&self) -> (certified: Option<[u8; 32]>)
        ensures
            certified is Some <==> self.pending().len() > 0,
            certified is Some ==> certified->0@ == commitment_of(self.pending(), self.tip()),
    {
        let previous = self.ledger.get_previous_hash();
        self.batch.commitment(&previous)
    }

    /// The certificate to hand out, given the one that the attestation
    /// service holds: none while nothing is pending, and the service's
    /// otherwise.
    pub fn get_certificate(&self, issued: Option<Vec<u8>>) -> (certificate: Option<Vec<u8>>)
        ensures
            certificate == if self.pending().len() == 0 {
                None
            } else {
                issued
            },
    {
        if self.batch.len() == 0 {
            None
        } else {
            issued
        }
    }

    /// Why a commit under a certificate that holds `certified` is refused,
    /// if it is.
    pub open spec fn commit_refusal(&self, permitted: bool, certified: Seq<u8>) -> Option<Error> {
        if !permitted {
            Some(Error::Unauthorized)
        } else if self.pending().len() == 0 {
            Some(Error::NothingPending)
        } else if certified != commitment_of(self.pending(), self.tip()) {
            Some(Error::CertificateMismatch)
        } else {
            None
        }
    }

    /// Seals the pending entries into the ledger, if `certificate` attests
    /// to them as they are: one block for each entry, in order, each with
    /// the certificate and the hash tree of the batch, chained to the block
    /// before it. The pending entries are then none, and the index of the
    /// last block is given. A commit that is refused changes nothing.
    pub fn commit(&mut self, permitted: bool, certificate: &Certificate) -> (r: Result<u64, Error>)
        requires
            old(self).wf(),
        ensures
            final(self).wf(),
            match r {
                Ok(last) => {
                    &&& old(self).commit_refusal(permitted, certificate.certified_data@) is None
                    &&& final(self).store() == old(self).store()
                    &&& final(self).genesis() == old(self).genesis()
                    &&& final(self).pending() == Seq::<DataView>::empty()
                    &&& final(self).blocks() == old(self).blocks() + sealed(
                        old(self).pending(),
                        certificate.bytes@,
                        witness_of(old(self).pending(), old(self).tip()),
                        old(self).tip(),
                    )
                    &&& last == final(self).blocks().len() - 1
                    &&& final(self).entries() == old(self).entries()
                    &&& final(self).epoch() == old(self).epoch()
                },
                Err(e) => {
                    &&& *final(self) == *old(self)
                    &&& old(self).commit_refusal(permitted, certificate.certified_data@) == Some(e)
                },
            },
    {
        if !permitted {
            return Err(Error::Unauthorized);
        }
        if self.batch.len() == 0 {
            return Err(Error::NothingPending);
        }
        let previous = self.ledger.get_previous_hash();
        let (commitment, witness) = self.batch.certify(&previous);
        if !same_bytes(&hash_bytes(&commitment), &certificate.certified_data) {
            return Err(Error::CertificateMismatch);
        }
        let ghost before = self.entries();
        let entries = self.batch.take();
        self.ledger.seal(entries, &certificate.bytes, &witness);
        proof {
            assert(self.entries() =~= before);
            assert(sized(self.pending()));
            assert(self.epoch() == old(self).epoch());
            assert forall|id: Seq<u8>| #[trigger]
                self.history(id) == replay(self.entries(), id) by {
                assert(old(self).history(id) == replay(old(self).entries(), id));
            }
        }
        Ok((self.ledger.len() - 1) as u64)
    }
}

/// A certificate for the pending entries as they are lets a permitted
/// commit go through: asked of a registry with pending entries, the
/// commitment that `set_certificate` gives is the one that `commit`
/// accepts.
pub proof fn lemma_fresh_certificate_commits(registry: Registry)
    requires
        registry.pending().len() > 0,
    ensures
        registry.commit_refusal(true, commitment_of(registry.pending(), registry.tip())) is None,
{
}

/// A certificate for other entries than the pending ones is refused: a
/// commitment made when `earlier` was pending does not pass once the
/// pending entries commit to something else.
pub proof fn lemma_stale_certificate_refused(registry: Registry, earlier: Seq<DataView>)
    requires
        registry.pending().len() > 0,
        commitment_of(earlier, registry.tip()) != commitment_of(
            registry.pending(),
            registry.tip(),
        ),
    ensures
        registry.commit_refusal(true, commitment_of(earlier, registry.tip())) == Some(
            Error::CertificateMismatch,
        ),
{
}

/// What one more entry does to the entries of a registry: the new list is
/// the old one with the entry appended, it is stamped, seeded and
/// admissible if the old one was and the entry fits, and it gives each
/// identifier the history that the entry makes of the old one.
pub proof fn lemma_entry_pushed(before: Seq<DataView>, after: Seq<DataView>, entry: DataView)
    requires
        after =~= before.push(entry),
        stamped(before),
        seeded(before),
        admissible(before),
        entry.jurors_index == before.len(),
        entry.rand.len() == (if entry.kind == Kind::Select || entry.kind == Kind::Expand {
            HASH_SIZE as nat
        } else {
            0
        }),
        entry.kind == Kind::Add ==> forall|id: Seq<u8>|
            entry.jurors.contains(id) ==> !spec_is_active(replay(before, id)),
    ensures
        stamped(after),
        seeded(after),
        admissible(after),
        forall|id: Seq<u8>|
            #[trigger] replay(after, id) == apply_entry(replay(before, id), entry, id),
{
    assert(after.drop_last() =~= before);
    assert forall|i: int, id: Seq<u8>|
        0 <= i < after.len() && (#[trigger] after[i]).kind == Kind::Add
            && #[trigger] after[i].jurors.contains(id) implies !spec_is_active(
        replay(after.take(i), id),
    ) by {
        if i < before.len() {
            assert(after.take(i) =~= before.take(i));
            assert(before[i].kind == Kind::Add && before[i].jurors.contains(id));
        } else {
            assert(after.take(i) =~= before);
        }
    }
    assert forall|i: int| 0 <= i < after.len() implies (#[trigger] after[i]).jurors_index == i by {
        if i < before.len() {
            assert(before[i].jurors_index == i);
        }
    }
    assert forall|i: int| 0 <= i < after.len() implies (#[trigger] after[i]).rand.len() == (
    if after[i].kind == Kind::Select || after[i].kind == Kind::Expand {
        HASH_SIZE as nat
    } else {
        0
    }) by {
        if i < before.len() {
            assert(before[i].rand.len() == (if before[i].kind == Kind::Select || before[i].kind
                == Kind::Expand {
                HASH_SIZE as nat
            } else {
                0
            }));
        }
    }
}

} // verus!
