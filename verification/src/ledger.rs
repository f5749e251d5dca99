//! The ledger: the committed blocks, each chained to the one before it by
//! the hash of that block's entry.

use vstd::prelude::*;

use crate::batch::{entries_of, entry_digest, Data, DataView};
use crate::digest::hash_bytes;
use crate::error::Error;
use crate::ident::{copy_bytes, copy_ids, ids_of};

verus! {

/// One committed entry with what authenticates it.
#[derive(Clone, Debug, PartialEq, Eq)]
pub struct Block {
    /// The certificate that was presented when the block was committed.
    pub certificate: Vec<u8>,
    /// The hash tree of the batch that the block was committed with.
    pub tree: Vec<u8>,
    /// The entry.
    pub data: Data,
    /// The hash of the entry of the block before, or the hash that the
    /// ledger started from.
    pub previous_hash: Vec<u8>,
}

/// What a block holds, as plain values.
pub struct BlockView {
    pub certificate: Seq<u8>,
    pub tree: Seq<u8>,
    pub data: DataView,
    pub previous_hash: Seq<u8>,
}

impl View for Block {
    type V = BlockView;

    open spec fn view(&self) -> BlockView {
        BlockView {
            certificate: self.certificate@,
            tree: self.tree@,
            data: self.data@,
            previous_hash: self.previous_hash@,
        }
    }
}

/// What a list of blocks holds, as plain values.
pub open spec fn blocks_of(list: Seq<Block>) -> Seq<BlockView> {
    Seq::new(list.len(), |i: int| list[i]@)
}

/// The entries of a list of blocks, in its order.
pub open spec fn data_of(blocks: Seq<BlockView>) -> Seq<DataView> {
    Seq::new(blocks.len(), |i: int| blocks[i].data)
}

/// The hash that a block appended to `blocks` has to carry: the hash of the
/// entry of the last block, or `genesis` where there is no block.
pub open spec fn tip_hash(blocks: Seq<BlockView>, genesis: Seq<u8>) -> Seq<u8> {
    if blocks.len() == 0 {
        genesis
    } else {
        entry_digest(blocks.last().data)
    }
}

/// Whether each block of `blocks` carries the hash of the entry of the
/// block before it, and the first one carries `genesis`.
pub open spec fn chained(blocks: Seq<BlockView>, genesis: Seq<u8>) -> bool {
    forall|i: int|
        0 <= i < blocks.len() ==> (#[trigger] blocks[i]).previous_hash == tip_hash(
            blocks.take(i),
            genesis,
        )
}

/// The blocks that seal `entries`, one for each entry and in their order,
/// after a block with the hash `previous_hash`: all carry the certificate
/// and the hash tree, and each is chained to the one before it.
pub open spec fn sealed(
    entries: Seq<DataView>,
    certificate: Seq<u8>,
    tree: Seq<u8>,
    previous_hash: Seq<u8>,
) -> Seq<BlockView> {
    Seq::new(
        entries.len(),
        |i: int|
            BlockView {
                certificate,
                tree,
                data: entries[i],
                previous_hash: if i == 0 {
                    previous_hash
                } else {
                    entry_digest(entries[i - 1])
                },
            },
    )
}

/// Whether every entry of `entries` has few enough jurors for their number
/// to be counted in a `u32`.
pub open spec fn sized(entries: Seq<DataView>) -> bool {
    forall|i: int| 0 <= i < entries.len() ==> (#[trigger] entries[i]).jurors.len() <= u32::MAX
}

impl Block {
    /// A copy of the block.
    pub fn duplicate(&self) -> (copy: Block)
        ensures
            copy@ == self@,
    {
        Block {
            certificate: copy_bytes(&self.certificate),
            tree: copy_bytes(&self.tree),
            data: self.data.duplicate(),
            previous_hash: copy_bytes(&self.previous_hash),
        }
    }
}

/// The committed blocks, oldest first. Blocks are appended and never
/// changed.
pub struct Ledger {
    blocks: Vec<Block>,
    genesis: [u8; 32],
}

impl View for Ledger {
    type V = Seq<BlockView>;

    closed spec fn view(&self) -> Seq<BlockView> {
        blocks_of(self.blocks@)
    }
}

impl Ledger {
    /// The hash that the first block carries.
    pub closed spec fn genesis(&self) -> Seq<u8> {
        self.genesis@
    }

    /// The blocks form a chain from the genesis hash, and the jurors of
    /// each can be counted in a `u32`.
    pub open spec fn wf(&self) -> bool {
        &&& chained(self@, self.genesis())
        &&& sized(data_of(self@))
    }

    /// A ledger without blocks that starts from `genesis`.
    pub fn new(genesis: [u8; 32]) -> (ledger: Self)
        ensures
            ledger.wf(),
            ledger@ == Seq::<BlockView>::empty(),
            ledger.genesis() == genesis@,
    {
        let ledger = Ledger { blocks: Vec::new(), genesis };
        assert(ledger@ =~= Seq::<BlockView>::empty());
        ledger
    }

    /// The number of blocks.
    pub fn len(&self) -> (n: usize)
        ensures
            n == self@.len(),
    {
        self.blocks.len()
    }

    /// The hash that the next block has to carry: the hash of the entry of
    /// the last block, or the genesis hash of a ledger without blocks.
    pub fn get_previous_hash(&self) -> (hash: [u8; 32])
        ensures
            hash@ == tip_hash(self@, self.genesis()),
    {
        let n = self.blocks.len();
        if n > 0 {
            self.blocks[n - 1].data.digest()
        } else {
            self.genesis
        }
    }

    /// A copy of the block at `index`, or `NotFound` where the ledger has
    /// no such block.
    pub fn get_block(&self, index: u32) -> (r: Result<Block, Error>)
        ensures
            r is Ok <==> index < self@.len(),
            r is Ok ==> r->Ok_0@ == self@[index as int],
            r is Err ==> r->Err_0 == Error::NotFound,
    {
        if (index as usize) < self.blocks.len() {
            Ok(self.blocks[index as usize].duplicate())
        } else {
            Err(Error::NotFound)
        }
    }

    /// The jurors of the entry of the block at `index`, or `NotFound`.
    pub fn get_jurors(&self, index: u32) -> (r: Result<Vec<Vec<u8>>, Error>)
        ensures
            r is Ok <==> index < self@.len(),
            r is Ok ==> ids_of(r->Ok_0@) == self@[index as int].data.jurors,
            r is Err ==> r->Err_0 == Error::NotFound,
    {
        if (index as usize) < self.blocks.len() {
            Ok(copy_ids(&self.blocks[index as usize].data.jurors))
        } else {
            Err(Error::NotFound)
        }
    }

    /// The number of jurors of the entry of the block at `index`, or
    /// `NotFound`.
    pub fn get_size(&self, index: u32) -> (r: Result<u32, Error>)
        requires
            self.wf(),
        ensures
            r is Ok <==> index < self@.len(),
            r is Ok ==> r->Ok_0 == self@[index as int].data.jurors.len(),
            r is Err ==> r->Err_0 == Error::NotFound,
    {
        if (index as usize) < self.blocks.len() {
            assert(data_of(self@)[index as int].jurors.len() <= u32::MAX);
            Ok(self.blocks[index as usize].data.jurors.len() as u32)
        } else {
            Err(Error::NotFound)
        }
    }

    /// Appends one block for each entry of `entries`, in their order. Each
    /// block carries `certificate` and `tree`, and the hash of the entry of
    /// the block before it.
    pub fn seal(&mut self, entries: Vec<Data>, certificate: &Vec<u8>, tree: &Vec<u8>)
        requires
            old(self).wf(),
            sized(entries_of(entries@)),
        ensures
            final(self).wf(),
            final(self).genesis() == old(self).genesis(),
            final(self)@ == old(self)@ + sealed(
                entries_of(entries@),
                certificate@,
                tree@,
                tip_hash(old(self)@, old(self).genesis()),
            ),
    {
        let ghost start = self@;
        let ghost fresh = sealed(
            entries_of(entries@),
            certificate@,
            tree@,
            tip_hash(self@, self.genesis()),
        );
        let mut i: usize = 0;
        while i < entries.len()
            invariant
                i <= entries@.len(),
                self.genesis() == old(self).genesis(),
                start == old(self)@,
                fresh == sealed(
                    entries_of(entries@),
                    certificate@,
                    tree@,
                    tip_hash(start, self.genesis()),
                ),
                self@ == start + fresh.take(i as int),
                self.wf(),
                sized(entries_of(entries@)),
            decreases entries.len() - i,
        {
            let previous = self.get_previous_hash();
            let block = Block {
                certificate: copy_bytes(certificate),
                tree: copy_bytes(tree),
                data: entries[i].duplicate(),
                previous_hash: hash_bytes(&previous),
            };
            let ghost before = self@;
            proof {
                if i > 0 {
                    assert(before.last() == fresh[i - 1]);
                }
                assert(block@ == fresh[i as int]);
                assert(entries_of(entries@)[i as int].jurors.len() <= u32::MAX);
            }
            self.blocks.push(block);
            proof {
                assert(self@ =~= before.push(fresh[i as int]));
                assert(self@ =~= start + fresh.take(i + 1));
                assert forall|k: int| 0 <= k < self@.len() implies (#[trigger] self@[k]).previous_hash
                    == tip_hash(self@.take(k), self.genesis()) by {
                    if k < before.len() {
                        assert(self@.take(k) =~= before.take(k));
                        assert(self@[k] == before[k]);
                    } else {
                        assert(self@.take(k) =~= before);
                    }
                }
                assert forall|k: int| 0 <= k < data_of(self@).len() implies (#[trigger] data_of(
                    self@,
                )[k]).jurors.len() <= u32::MAX by {
                    if k < before.len() {
                        assert(data_of(before)[k].jurors.len() <= u32::MAX);
                    }
                }
            }
            i += 1;
        }
        assert(fresh.take(i as int) =~= fresh);
    }
}

} // verus!
