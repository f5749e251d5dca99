//! Juror identifiers: opaque byte strings of bounded length.

use vstd::prelude::*;
use vstd::slice::slice_to_vec;

verus! {

/// The largest number of bytes a juror identifier may have.
pub const MAX_KEY_SIZE: usize = 32;

/// The byte strings that a list of identifiers holds, in its order.
pub open spec fn ids_of(list: Seq<Vec<u8>>) -> Seq<Seq<u8>> {
    Seq::new(list.len(), |i: int| list[i]@)
}

/// Whether two byte strings are the same, byte for byte.
pub fn same_bytes(a: &Vec<u8>, b: &Vec<u8>) -> (same: bool)
    ensures
        same == (a@ == b@),
{
    if a.len() != b.len() {
        return false;
    }
    let mut i: usize = 0;
    while i < a.len()
        invariant
            a@.len() == b@.len(),
            i <= a@.len(),
            forall|k: int| 0 <= k < i ==> a@[k] == b@[k],
        decreases a.len() - i,
    {
        if a[i] != b[i] {
            return false;
        }
        i += 1;
    }
    assert(a@ =~= b@);
    true
}

/// A copy of a byte string.
pub fn copy_bytes(bytes: &Vec<u8>) -> (copy: Vec<u8>)
    ensures
        copy@ == bytes@,
{
    slice_to_vec(bytes.as_slice())
}

/// A copy of a list of identifiers.
pub fn copy_ids(list: &Vec<Vec<u8>>) -> (copy: Vec<Vec<u8>>)
    ensures
        ids_of(copy@) == ids_of(list@),
{
    let mut copy: Vec<Vec<u8>> = Vec::new();
    let mut i: usize = 0;
    while i < list.len()
        invariant
            i <= list.len(),
            copy@.len() == i,
            forall|k: int| 0 <= k < i ==> copy@[k]@ == list@[k]@,
        decreases list.len() - i,
    {
        copy.push(copy_bytes(&list[i]));
        i += 1;
    }
    assert(ids_of(copy@) =~= ids_of(list@));
    copy
}

/// A copy of the identifiers of `list` from position `from` on.
pub fn copy_ids_from(list: &Vec<Vec<u8>>, from: usize) -> (copy: Vec<Vec<u8>>)
    requires
        from <= list@.len(),
    ensures
        ids_of(copy@) == ids_of(list@).skip(from as int),
{
    let mut copy: Vec<Vec<u8>> = Vec::new();
    let mut i: usize = from;
    while i < list.len()
        invariant
            from <= i <= list.len(),
            copy@.len() == i - from,
            forall|k: int| 0 <= k < i - from ==> copy@[k]@ == list@[from + k]@,
        decreases list.len() - i,
    {
        copy.push(copy_bytes(&list[i]));
        i += 1;
    }
    assert(ids_of(copy@) =~= ids_of(list@).skip(from as int));
    copy
}

/// Whether `id` is among the first `upto` identifiers of `list`.
pub fn listed_before(list: &Vec<Vec<u8>>, upto: usize, id: &Vec<u8>) -> (found: bool)
    requires
        upto <= list.len(),
    ensures
        found == ids_of(list@).take(upto as int).contains(id@),
{
    let mut i: usize = 0;
    while i < upto
        invariant
            i <= upto <= list.len(),
            forall|k: int| 0 <= k < i ==> list@[k]@ != id@,
        decreases upto - i,
    {
        if same_bytes(&list[i], id) {
            assert(ids_of(list@).take(upto as int)[i as int] == id@);
            return true;
        }
        i += 1;
    }
    false
}

} // verus!
