//! Pending entries: the operations that were carried out and are not yet
//! sealed into blocks, and the commitment that certifies them.

use ic_certified_map::RbTree;
use vstd::bytes::{
    lemma_auto_spec_u32_to_from_le_bytes, lemma_auto_spec_u64_to_from_le_bytes,
    spec_u32_from_le_bytes, spec_u32_to_le_bytes, spec_u64_from_le_bytes, spec_u64_to_le_bytes,
    u32_to_le_bytes, u64_to_le_bytes,
};
use vstd::prelude::*;
use vstd::string::{StrSliceExecFns, StringSliceAdditionalSpecFns};

use crate::certified::{
    root_digest, tree_insert, tree_log, tree_new, tree_root_hash, tree_witness, witness_bytes,
};
use crate::digest::{hash_bytes, labeled_digest, labeled_hash, sha256, sha256_of};
use crate::ident::{copy_bytes, copy_ids, ids_of};
use crate::lex::{lemma_lex_last, lemma_lex_push, lex_less};

verus! {

/// What an entry records.
#[derive(Clone, Copy, Debug, PartialEq, Eq, Structural)]
pub enum Kind {
    /// Jurors joined the pool.
    Add,
    /// Jurors left the pool.
    Remove,
    /// Jurors were drawn from the pool.
    Select,
    /// More jurors were drawn, in addition to an earlier draw.
    Expand,
}

/// One operation on the record.
#[derive(Clone, Debug, PartialEq, Eq)]
pub struct Data {
    /// What the entry records.
    pub kind: Kind,
    /// The jurors that were added or removed, or the jurors that were drawn.
    pub jurors: Vec<Vec<u8>>,
    /// The random seed of a draw; empty for other entries.
    pub rand: Vec<u8>,
    /// The epoch of the entry.
    pub jurors_index: u32,
}

/// What an entry holds, as plain values.
pub struct DataView {
    pub kind: Kind,
    pub jurors: Seq<Seq<u8>>,
    pub rand: Seq<u8>,
    pub jurors_index: u32,
}

impl View for Data {
    type V = DataView;

    open spec fn view(&self) -> DataView {
        DataView {
            kind: self.kind,
            jurors: ids_of(self.jurors@),
            rand: self.rand@,
            jurors_index: self.jurors_index,
        }
    }
}

/// What a list of entries holds, as plain values.
pub open spec fn entries_of(list: Seq<Data>) -> Seq<DataView> {
    Seq::new(list.len(), |i: int| list[i]@)
}

/// The byte that stands for a kind in the encoding of an entry.
pub open spec fn kind_tag(kind: Kind) -> u8 {
    match kind {
        Kind::Add => 0,
        Kind::Remove => 1,
        Kind::Select => 2,
        Kind::Expand => 3,
    }
}

/// The bytes of a list of identifiers: each its length, as eight
/// little-endian bytes, and then its bytes.
pub open spec fn ids_bytes(ids: Seq<Seq<u8>>) -> Seq<u8>
    decreases ids.len(),
{
    if ids.len() == 0 {
        Seq::empty()
    } else {
        ids_bytes(ids.drop_last()) + spec_u64_to_le_bytes(ids.last().len() as u64) + ids.last()
    }
}

/// The bytes that an entry is hashed as: the tag of its kind, its epoch as
/// four little-endian bytes, the length of its seed and the seed, the
/// number of its jurors and the jurors. Lengths and the number are eight
/// little-endian bytes each.
pub open spec fn entry_bytes(entry: DataView) -> Seq<u8> {
    seq![kind_tag(entry.kind)] + spec_u32_to_le_bytes(entry.jurors_index) + spec_u64_to_le_bytes(
        entry.rand.len() as u64,
    ) + entry.rand + spec_u64_to_le_bytes(entry.jurors.len() as u64) + ids_bytes(entry.jurors)
}

/// Whether the seed and the identifiers of `entry` and their numbers are no
/// longer than a `u64` can say, as those of every entry in memory are.
pub open spec fn measurable(entry: DataView) -> bool {
    &&& entry.rand.len() <= u64::MAX
    &&& entry.jurors.len() <= u64::MAX
    &&& forall|i: int| 0 <= i < entry.jurors.len() ==> (#[trigger] entry.jurors[i]).len() <= u64::MAX
}

/// The bytes of a list of identifiers start with the first identifier.
pub proof fn lemma_ids_bytes_front(ids: Seq<Seq<u8>>)
    requires
        ids.len() > 0,
    ensures
        ids_bytes(ids) == spec_u64_to_le_bytes(ids[0].len() as u64) + ids[0] + ids_bytes(
            ids.drop_first(),
        ),
    decreases ids.len(),
{
    let head = spec_u64_to_le_bytes(ids[0].len() as u64) + ids[0];
    if ids.len() == 1 {
        assert(ids.drop_last() =~= Seq::<Seq<u8>>::empty());
        assert(ids.drop_first() =~= Seq::<Seq<u8>>::empty());
        assert(ids_bytes(ids) =~= head + ids_bytes(ids.drop_first()));
    } else {
        let front = ids.drop_last();
        let rest = ids.drop_first();
        let tail = spec_u64_to_le_bytes(ids.last().len() as u64) + ids.last();
        lemma_ids_bytes_front(front);
        assert(front.drop_first() =~= rest.drop_last());
        assert(rest.last() == ids.last());
        assert(ids_bytes(ids) =~= ids_bytes(front) + tail);
        assert(ids_bytes(rest) =~= ids_bytes(rest.drop_last()) + tail);
        assert(ids_bytes(ids) =~= head + ids_bytes(rest));
    }
}

/// Lists of equally many identifiers that have the same bytes are the
/// same list.
pub proof fn lemma_ids_bytes_injective(a: Seq<Seq<u8>>, b: Seq<Seq<u8>>)
    requires
        a.len() == b.len(),
        ids_bytes(a) == ids_bytes(b),
        forall|i: int| 0 <= i < a.len() ==> (#[trigger] a[i]).len() <= u64::MAX,
        forall|i: int| 0 <= i < b.len() ==> (#[trigger] b[i]).len() <= u64::MAX,
    ensures
        a == b,
    decreases a.len(),
{
    if a.len() == 0 {
        assert(a =~= b);
    } else {
        lemma_auto_spec_u64_to_from_le_bytes();
        lemma_ids_bytes_front(a);
        lemma_ids_bytes_front(b);
        let s = ids_bytes(a);
        let la = spec_u64_to_le_bytes(a[0].len() as u64);
        let lb = spec_u64_to_le_bytes(b[0].len() as u64);
        assert(la.len() == 8 && lb.len() == 8);
        assert(s.subrange(0, 8) =~= la);
        assert(s.subrange(0, 8) =~= lb);
        assert(spec_u64_from_le_bytes(la) == a[0].len() as u64);
        assert(spec_u64_from_le_bytes(lb) == b[0].len() as u64);
        let n = a[0].len() as int;
        assert(b[0].len() == n);
        assert(s.subrange(8, 8 + n) =~= a[0]);
        assert(s.subrange(8, 8 + n) =~= b[0]);
        let ra = a.drop_first();
        let rb = b.drop_first();
        assert(s.subrange(8 + n, s.len() as int) =~= ids_bytes(ra));
        assert(s.subrange(8 + n, s.len() as int) =~= ids_bytes(rb));
        assert forall|i: int| 0 <= i < ra.len() implies (#[trigger] ra[i]).len() <= u64::MAX by {
            assert(ra[i] == a[i + 1]);
        }
        assert forall|i: int| 0 <= i < rb.len() implies (#[trigger] rb[i]).len() <= u64::MAX by {
            assert(rb[i] == b[i + 1]);
        }
        lemma_ids_bytes_injective(ra, rb);
        assert(a =~= seq![a[0]] + ra);
        assert(b =~= seq![b[0]] + rb);
    }
}

/// The encoding of an entry is unambiguous: entries with the same bytes
/// are the same entry.
pub proof fn lemma_entry_bytes_injective(a: DataView, b: DataView)
    requires
        measurable(a),
        measurable(b),
        entry_bytes(a) == entry_bytes(b),
    ensures
        a == b,
{
    lemma_auto_spec_u32_to_from_le_bytes();
    lemma_auto_spec_u64_to_from_le_bytes();
    let s = entry_bytes(a);
    assert(s[0] == kind_tag(a.kind));
    assert(s[0] == kind_tag(b.kind));
    assert(a.kind == b.kind);
    let ia = spec_u32_to_le_bytes(a.jurors_index);
    let ib = spec_u32_to_le_bytes(b.jurors_index);
    assert(ia.len() == 4 && ib.len() == 4);
    assert(s.subrange(1, 5) =~= ia);
    assert(s.subrange(1, 5) =~= ib);
    assert(spec_u32_from_le_bytes(ia) == a.jurors_index);
    assert(spec_u32_from_le_bytes(ib) == b.jurors_index);
    let ra = spec_u64_to_le_bytes(a.rand.len() as u64);
    let rb = spec_u64_to_le_bytes(b.rand.len() as u64);
    assert(ra.len() == 8 && rb.len() == 8);
    assert(s.subrange(5, 13) =~= ra);
    assert(s.subrange(5, 13) =~= rb);
    assert(spec_u64_from_le_bytes(ra) == a.rand.len() as u64);
    assert(spec_u64_from_le_bytes(rb) == b.rand.len() as u64);
    let n = a.rand.len() as int;
    assert(b.rand.len() == n);
    assert(s.subrange(13, 13 + n) =~= a.rand);
    assert(s.subrange(13, 13 + n) =~= b.rand);
    let ca = spec_u64_to_le_bytes(a.jurors.len() as u64);
    let cb = spec_u64_to_le_bytes(b.jurors.len() as u64);
    assert(ca.len() == 8 && cb.len() == 8);
    assert(s.subrange(13 + n, 21 + n) =~= ca);
    assert(s.subrange(13 + n, 21 + n) =~= cb);
    assert(spec_u64_from_le_bytes(ca) == a.jurors.len() as u64);
    assert(spec_u64_from_le_bytes(cb) == b.jurors.len() as u64);
    assert(a.jurors.len() == b.jurors.len());
    assert(s.subrange(21 + n, s.len() as int) =~= ids_bytes(a.jurors));
    assert(s.subrange(21 + n, s.len() as int) =~= ids_bytes(b.jurors));
    lemma_ids_bytes_injective(a.jurors, b.jurors);
}

/// The hash of an entry: the SHA-256 digest of its bytes.
pub open spec fn entry_digest(entry: DataView) -> Seq<u8> {
    sha256_of(entry_bytes(entry))
}

/// The last `width` digits of `x` to the base 256, the most significant
/// first.
pub open spec fn be_digits(x: nat, width: nat) -> Seq<u8>
    decreases width,
{
    if width == 0 {
        Seq::empty()
    } else {
        be_digits(x / 256, (width - 1) as nat).push((x % 256) as u8)
    }
}

/// Whether `x` has no more than `width` digits to the base 256.
pub open spec fn fits(x: nat, width: nat) -> bool
    decreases width,
{
    if width == 0 {
        x == 0
    } else {
        fits(x / 256, (width - 1) as nat)
    }
}

/// The key of the `i`-th entry in the commit tree: `i` as eight bytes, the
/// most significant first.
pub open spec fn index_key(i: u64) -> Seq<u8> {
    be_digits(i as nat, 8)
}

/// There are as many digits as were asked for.
pub proof fn lemma_be_digits_len(x: nat, width: nat)
    ensures
        be_digits(x, width).len() == width,
    decreases width,
{
    if width > 0 {
        lemma_be_digits_len(x / 256, (width - 1) as nat);
    }
}

/// Of two numbers that have no more than `width` digits, the smaller one
/// has the digits that come first.
pub proof fn lemma_be_digits_ascend(x: nat, y: nat, width: nat)
    requires
        x < y,
        fits(y, width),
    ensures
        lex_less(be_digits(x, width), be_digits(y, width)),
    decreases width,
{
    if width > 0 {
        let front_x = be_digits(x / 256, (width - 1) as nat);
        let front_y = be_digits(y / 256, (width - 1) as nat);
        if x / 256 == y / 256 {
            lemma_lex_last(front_x, (x % 256) as u8, (y % 256) as u8);
        } else {
            lemma_be_digits_ascend(x / 256, y / 256, (width - 1) as nat);
            lemma_be_digits_len(x / 256, (width - 1) as nat);
            lemma_be_digits_len(y / 256, (width - 1) as nat);
            lemma_lex_push(front_x, front_y, (x % 256) as u8, (y % 256) as u8);
        }
    }
}

/// The keys of the entries ascend with their positions, so the commit tree
/// lists the entries of a batch in their order.
pub proof fn lemma_index_keys_ascend(i: u64, j: u64)
    requires
        i < j,
    ensures
        lex_less(index_key(i), index_key(j)),
{
    let y = j as nat;
    assert(fits(y, 8)) by {
        reveal_with_fuel(fits, 9);
        assert(y / 256 / 256 / 256 / 256 / 256 / 256 / 256 / 256 == 0);
    }
    lemma_be_digits_ascend(i as nat, y, 8);
}

/// The key under which the commit tree holds the hash of the block before.
pub open spec fn previous_hash_key() -> Seq<u8> {
    "previous_hash".spec_bytes()
}

/// The label under which the root of the commit tree is hashed.
pub open spec fn commit_label() -> Seq<u8> {
    "certified_blocks".spec_bytes()
}

/// The insertions that build the commit tree of a batch: the digest of
/// each entry under the key of its position, in the order of the batch,
/// and then the hash of the block before under its own key.
pub open spec fn batch_log(entries: Seq<DataView>, previous_hash: Seq<u8>) -> Seq<
    (Seq<u8>, Seq<u8>),
> {
    Seq::new(
        entries.len() + 1,
        |i: int|
            if i < entries.len() {
                (index_key(i as u64), entry_digest(entries[i]))
            } else {
                (previous_hash_key(), previous_hash)
            },
    )
}

/// The commitment to a batch that follows a block with the hash
/// `previous_hash`: the labeled hash of the root of its commit tree.
pub open spec fn commitment_of(entries: Seq<DataView>, previous_hash: Seq<u8>) -> Seq<u8> {
    labeled_digest(commit_label(), root_digest(batch_log(entries, previous_hash)))
}

impl Data {
    /// A copy of the entry.
    pub fn duplicate(&self) -> (copy: Data)
        ensures
            copy@ == self@,
    {
        Data {
            kind: self.kind,
            jurors: copy_ids(&self.jurors),
            rand: copy_bytes(&self.rand),
            jurors_index: self.jurors_index,
        }
    }

    /// The bytes that the entry is hashed as.
    pub fn encode(&self) -> (bytes: Vec<u8>)
        ensures
            bytes@ == entry_bytes(self@),
    {
        let tag: u8 = match self.kind {
            Kind::Add => 0,
            Kind::Remove => 1,
            Kind::Select => 2,
            Kind::Expand => 3,
        };
        let mut bytes: Vec<u8> = Vec::new();
        bytes.push(tag);
        let mut epoch = u32_to_le_bytes(self.jurors_index);
        bytes.append(&mut epoch);
        let mut seed_len = u64_to_le_bytes(self.rand.len() as u64);
        bytes.append(&mut seed_len);
        let mut seed = copy_bytes(&self.rand);
        bytes.append(&mut seed);
        let mut count = u64_to_le_bytes(self.jurors.len() as u64);
        bytes.append(&mut count);
        let ghost head = bytes@;
        let mut i: usize = 0;
        while i < self.jurors.len()
            invariant
                i <= self.jurors@.len(),
                bytes@ == head + ids_bytes(ids_of(self.jurors@).take(i as int)),
            decreases self.jurors.len() - i,
        {
            let mut len = u64_to_le_bytes(self.jurors[i].len() as u64);
            bytes.append(&mut len);
            let mut id = copy_bytes(&self.jurors[i]);
            bytes.append(&mut id);
            proof {
                let ids = ids_of(self.jurors@);
                assert(ids.take(i + 1).drop_last() =~= ids.take(i as int));
                assert(ids.take(i + 1).last() == self.jurors@[i as int]@);
                assert(bytes@ =~= head + ids_bytes(ids.take(i + 1)));
            }
            i += 1;
        }
        proof {
            assert(ids_of(self.jurors@).take(i as int) =~= ids_of(self.jurors@));
            assert(bytes@ =~= entry_bytes(self@));
        }
        bytes
    }

    /// The hash of the entry.
    pub fn digest(&self) -> (hash: [u8; 32])
        ensures
            hash@ == entry_digest(self@),
    {
        let bytes = self.encode();
        sha256(bytes.as_slice())
    }
}

/// The last `width` digits of `x` to the base 256, the most significant
/// first.
pub fn make_be_digits(x: u64, width: usize) -> (digits: Vec<u8>)
    ensures
        digits@ == be_digits(x as nat, width as nat),
    decreases width,
{
    if width == 0 {
        Vec::new()
    } else {
        let mut digits = make_be_digits(x / 256, width - 1);
        digits.push((x % 256) as u8);
        digits
    }
}

/// The key of the `i`-th entry in the commit tree.
pub fn make_index_key(i: u64) -> (key: Vec<u8>)
    ensures
        key@ == index_key(i),
{
    make_be_digits(i, 8)
}

/// The commit tree of a batch that follows a block with the hash
/// `previous_hash`.
pub fn build_tree(entries: &Vec<Data>, previous_hash: &[u8; 32]) -> (tree: RbTree<Vec<u8>, Vec<u8>>)
    ensures
        tree_log(tree) == batch_log(entries_of(entries@), previous_hash@),
{
    let mut tree = tree_new();
    let ghost whole = batch_log(entries_of(entries@), previous_hash@);
    let mut i: usize = 0;
    while i < entries.len()
        invariant
            i <= entries@.len(),
            whole == batch_log(entries_of(entries@), previous_hash@),
            tree_log(tree) == whole.take(i as int),
        decreases entries.len() - i,
    {
        let hash = entries[i].digest();
        tree_insert(&mut tree, make_index_key(i as u64), hash_bytes(&hash));
        proof {
            assert(whole.take(i + 1) =~= whole.take(i as int).push(whole[i as int]));
        }
        i += 1;
    }
    tree_insert(&mut tree, "previous_hash".as_bytes_vec(), hash_bytes(previous_hash));
    proof {
        assert(whole =~= whole.take(i as int).push(whole[i as int]));
    }
    tree
}

/// The hash tree of a batch that follows a block with the hash
/// `previous_hash`, as the bytes that a block keeps.
pub open spec fn witness_of(entries: Seq<DataView>, previous_hash: Seq<u8>) -> Seq<u8> {
    witness_bytes(commit_label(), batch_log(entries, previous_hash))
}

/// The commitment to a batch that follows a block with the hash
/// `previous_hash`.
pub fn commitment(entries: &Vec<Data>, previous_hash: &[u8; 32]) -> (hash: [u8; 32])
    ensures
        hash@ == commitment_of(entries_of(entries@), previous_hash@),
{
    let tree = build_tree(entries, previous_hash);
    let root = tree_root_hash(&tree);
    let label = "certified_blocks".as_bytes_vec();
    labeled_hash(label.as_slice(), &root)
}

/// The entries that are not yet sealed into blocks, oldest first.
pub struct PendingBatch {
    entries: Vec<Data>,
}

impl View for PendingBatch {
    type V = Seq<DataView>;

    closed spec fn view(&self) -> Seq<DataView> {
        entries_of(self.entries@)
    }
}

impl PendingBatch {
    /// A batch without entries.
    pub fn new() -> (batch: Self)
        ensures
            batch@ == Seq::<DataView>::empty(),
    {
        let batch = PendingBatch { entries: Vec::new() };
        assert(batch@ =~= Seq::<DataView>::empty());
        batch
    }

    /// Appends a copy of `data` to the batch.
    pub fn push_pending(&mut self, data: &Data)
        ensures
            final(self)@ == old(self)@.push(data@),
    {
        self.entries.push(data.duplicate());
        assert(self@ =~= old(self)@.push(data@));
    }

    /// The number of entries in the batch.
    pub fn len(&self) -> (n: usize)
        ensures
            n == self@.len(),
    {
        self.entries.len()
    }

    /// A copy of the `i`-th entry of the batch.
    pub fn get(&self, i: usize) -> (entry: Data)
        requires
            i < self@.len(),
        ensures
            entry@ == self@[i as int],
    {
        self.entries[i].duplicate()
    }

    /// Empties the batch and hands out the entries that it held.
    pub fn take(&mut self) -> (entries: Vec<Data>)
        ensures
            entries_of(entries@) == old(self)@,
            final(self)@ == Seq::<DataView>::empty(),
    {
        let mut entries: Vec<Data> = Vec::new();
        std::mem::swap(&mut self.entries, &mut entries);
        assert(self@ =~= Seq::<DataView>::empty());
        entries
    }

    /// The commitment to the batch as it is and the bytes of its hash tree,
    /// for a ledger whose last block has the hash `previous_hash`.
    pub fn certify(&self, previous_hash: &[u8; 32]) -> (r: ([u8; 32], Vec<u8>))
        ensures
            r.0@ == commitment_of(self@, previous_hash@),
            r.1@ == witness_of(self@, previous_hash@),
    {
        let tree = build_tree(&self.entries, previous_hash);
        let root = tree_root_hash(&tree);
        let label = "certified_blocks".as_bytes_vec();
        let hash = labeled_hash(label.as_slice(), &root);
        let witness = tree_witness(&tree, label.as_slice());
        (hash, witness)
    }

    /// The commitment to the batch as it is, for a ledger whose last block
    /// has the hash `previous_hash`; `None` while the batch is empty.
    pub fn commitment(&self, previous_hash: &[u8; 32]) -> (hash: Option<[u8; 32]>)
        ensures
            hash is Some <==> self@.len() > 0,
            hash is Some ==> hash->0@ == commitment_of(self@, previous_hash@),
    {
        if self.entries.len() == 0 {
            None
        } else {
            Some(commitment(&self.entries, previous_hash))
        }
    }
}

} // verus!
