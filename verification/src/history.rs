//! The activity timeline of one juror identifier and its byte encoding.
//!
//! A history is the ordered list of epochs at which an identifier changed
//! state. The entries alternate between "became active" and "became
//! inactive", starting with an activation, so a history of odd length belongs
//! to an identifier that is active now and one of even length (the empty
//! history of an identifier never seen included) to one that is not.

use vstd::bytes::{
    lemma_auto_spec_u32_to_from_le_bytes, spec_u32_from_le_bytes, spec_u32_to_le_bytes,
    u32_from_le_bytes, u32_to_le_bytes,
};
use vstd::prelude::*;
use vstd::slice::slice_subrange;

verus! {

/// The largest number of transitions one identifier's history may hold.
pub const MAX_HISTORY: usize = 8;

/// The bytes of a history: its indices in order, four little-endian bytes each.
pub open spec fn encode_history(h: Seq<u32>) -> Seq<u8>
    decreases h.len(),
{
    if h.len() == 0 {
        Seq::empty()
    } else {
        encode_history(h.drop_last()) + spec_u32_to_le_bytes(h.last())
    }
}

/// The history held in `b`: one index for each full group of four bytes.
/// Bytes after the last full group belong to no index.
pub open spec fn decode_history(b: Seq<u8>) -> Seq<u32> {
    Seq::new((b.len() / 4) as nat, |i: int| spec_u32_from_le_bytes(b.subrange(4 * i, 4 * i + 4)))
}

/// An encoded history is four bytes for each of its indices.
pub proof fn lemma_encode_len(h: Seq<u32>)
    ensures
        encode_history(h).len() == 4 * h.len(),
    decreases h.len(),
{
    lemma_auto_spec_u32_to_from_le_bytes();
    if h.len() > 0 {
        lemma_encode_len(h.drop_last());
    }
}

/// The four bytes at position `i` of an encoded history are the bytes of its
/// `i`-th index.
pub proof fn lemma_encode_chunk(h: Seq<u32>, i: int)
    requires
        0 <= i < h.len(),
    ensures
        encode_history(h).subrange(4 * i, 4 * i + 4) == spec_u32_to_le_bytes(h[i]),
    decreases h.len(),
{
    lemma_auto_spec_u32_to_from_le_bytes();
    lemma_encode_len(h);
    lemma_encode_len(h.drop_last());
    let front = encode_history(h.drop_last());
    let tail = spec_u32_to_le_bytes(h.last());
    if i == h.len() - 1 {
        assert((front + tail).subrange(4 * i, 4 * i + 4) =~= tail);
    } else {
        lemma_encode_chunk(h.drop_last(), i);
        assert((front + tail).subrange(4 * i, 4 * i + 4) =~= front.subrange(4 * i, 4 * i + 4));
    }
}

/// Decoding undoes encoding, for a history of any length.
pub proof fn lemma_decode_encode(h: Seq<u32>)
    ensures
        decode_history(encode_history(h)) == h,
{
    lemma_auto_spec_u32_to_from_le_bytes();
    lemma_encode_len(h);
    let b = encode_history(h);
    assert(b.len() / 4 == h.len());
    assert forall|i: int| 0 <= i < h.len() implies decode_history(b)[i] == h[i] by {
        lemma_encode_chunk(h, i);
        assert(spec_u32_to_le_bytes(h[i]).len() == 4);
    }
    assert(decode_history(b) =~= h);
}

/// Encoding undoes decoding on bytes that are made of full groups of four.
pub proof fn lemma_encode_decode(b: Seq<u8>)
    requires
        b.len() % 4 == 0,
    ensures
        encode_history(decode_history(b)) == b,
{
    lemma_auto_spec_u32_to_from_le_bytes();
    let h = decode_history(b);
    let e = encode_history(h);
    lemma_encode_len(h);
    assert forall|j: int| 0 <= j < b.len() implies e[j] == b[j] by {
        let i = j / 4;
        lemma_encode_chunk(h, i);
        let chunk = b.subrange(4 * i, 4 * i + 4);
        assert(spec_u32_to_le_bytes(spec_u32_from_le_bytes(chunk)) == chunk);
        assert(e.subrange(4 * i, 4 * i + 4)[j - 4 * i] == e[j]);
        assert(chunk[j - 4 * i] == b[j]);
    }
    assert(e =~= b);
}

/// Encodes a history as the concatenation of its indices, four
/// little-endian bytes each.
pub fn from_history(history: &Vec<u32>) -> (bytes: Vec<u8>)
    ensures
        bytes@ == encode_history(history@),
        bytes@.len() == 4 * history@.len(),
        decode_history(bytes@) == history@,
{
    let mut bytes: Vec<u8> = Vec::new();
    let mut i: usize = 0;
    while i < history.len()
        invariant
            i <= history.len(),
            bytes@ == encode_history(history@.take(i as int)),
        decreases history.len() - i,
    {
        let mut word = u32_to_le_bytes(history[i]);
        bytes.append(&mut word);
        proof {
            assert(history@.take(i + 1).drop_last() =~= history@.take(i as int));
        }
        i += 1;
    }
    proof {
        assert(history@.take(i as int) =~= history@);
        lemma_encode_len(history@);
        lemma_decode_encode(history@);
    }
    bytes
}

/// Decodes a history by cutting `b` into groups of four bytes, each the
/// little-endian form of one index.
pub fn to_history(b: &Vec<u8>) -> (history: Vec<u32>)
    ensures
        history@ == decode_history(b@),
        history@.len() == b@.len() / 4,
        b@.len() % 4 == 0 ==> encode_history(history@) == b@,
{
    let count: usize = b.len() / 4;
    let mut history: Vec<u32> = Vec::new();
    let mut i: usize = 0;
    while i < count
        invariant
            count == b@.len() / 4,
            4 * count <= b@.len() <= usize::MAX,
            i <= count,
            history@.len() == i,
            forall|k: int| 0 <= k < i ==> history@[k] == decode_history(b@)[k],
        decreases count - i,
    {
        let chunk = slice_subrange(b.as_slice(), 4 * i, 4 * i + 4);
        history.push(u32_from_le_bytes(chunk));
        i += 1;
    }
    proof {
        assert(history@ =~= decode_history(b@));
        if b@.len() % 4 == 0 {
            lemma_encode_decode(b@);
        }
    }
    history
}

/// Whether the identifier that owns `h` is active after the last transition.
pub open spec fn spec_is_active(h: Seq<u32>) -> bool {
    h.len() % 2 == 1
}

/// Whether the `j`-th span of `h`, from an activation to the deactivation
/// that follows it, holds `index`.
pub open spec fn span_covers(h: Seq<u32>, j: int, index: u32) -> bool {
    &&& 0 <= j
    &&& 2 * j + 1 < h.len()
    &&& h[2 * j] <= index
    &&& index < h[2 * j + 1]
}

/// Whether the identifier that owns `h` counts as a member at `index`:
/// either its last transition is an activation no later than `index`, or
/// `index` falls into one of its closed spans.
pub open spec fn spec_active_at(h: Seq<u32>, index: u32) -> bool {
    ||| (h.len() % 2 == 1 && h.last() <= index)
    ||| exists|j: int| span_covers(h, j, index)
}

/// Whether the indices of `h` never go down.
pub open spec fn ordered(h: Seq<u32>) -> bool {
    forall|i: int, j: int| 0 <= i <= j < h.len() ==> h[i] <= h[j]
}

/// Whether every index of `h` lies below `epoch`.
pub open spec fn below(h: Seq<u32>, epoch: int) -> bool {
    forall|i: int| 0 <= i < h.len() ==> h[i] < epoch
}

/// Whether an activation may be recorded on `h`: its identifier is inactive
/// and the history has room for the transition.
pub open spec fn can_activate(h: Seq<u32>) -> bool {
    h.len() % 2 == 0 && h.len() < MAX_HISTORY
}

/// The history that a removal at `at` leaves behind: the deactivation is
/// recorded for an active identifier, and an inactive one is left alone.
pub open spec fn after_remove(h: Seq<u32>, at: u32) -> Seq<u32> {
    if spec_is_active(h) {
        h.push(at)
    } else {
        h
    }
}

/// The history that a call leaves behind: an addition at `at` where
/// `adding`, which is refused and changes nothing where the history does
/// not allow an activation, and a removal at `at` otherwise.
pub open spec fn after_call(h: Seq<u32>, adding: bool, at: u32) -> Seq<u32> {
    if !adding {
        after_remove(h, at)
    } else if can_activate(h) {
        h.push(at)
    } else {
        h
    }
}

/// The history of an identifier never seen before after the calls of
/// `calls`, each an addition (`true`) or a removal with its epoch.
pub open spec fn after_calls(calls: Seq<(bool, u32)>) -> Seq<u32>
    decreases calls.len(),
{
    if calls.len() == 0 {
        Seq::empty()
    } else {
        after_call(after_calls(calls.drop_last()), calls.last().0, calls.last().1)
    }
}

/// Whether the calls take turns, an addition first.
pub open spec fn alternating(calls: Seq<(bool, u32)>) -> bool {
    forall|k: int| 0 <= k < calls.len() ==> (#[trigger] calls[k]).0 == (k % 2 == 0)
}

/// Whatever is called on a fresh identifier, its history never holds more
/// than `MAX_HISTORY` transitions, and each call either leaves the history
/// as it is or appends its epoch, which turns an even length into an odd
/// one and an odd one into an even one.
pub proof fn lemma_calls_bounded(calls: Seq<(bool, u32)>)
    ensures
        after_calls(calls).len() <= MAX_HISTORY,
        calls.len() > 0 ==> {
            let before = after_calls(calls.drop_last());
            after_calls(calls) == before || after_calls(calls) == before.push(calls.last().1)
        },
    decreases calls.len(),
{
    if calls.len() > 0 {
        lemma_calls_bounded(calls.drop_last());
    }
}

/// Calls that take turns on a fresh identifier are all carried out while
/// the history has room: after `n <= MAX_HISTORY` of them the history holds
/// `n` transitions, the epochs of the calls. The call after `MAX_HISTORY`
/// such calls is an addition, and it is refused.
pub proof fn lemma_alternating_calls(calls: Seq<(bool, u32)>)
    requires
        alternating(calls),
    ensures
        calls.len() <= MAX_HISTORY ==> after_calls(calls) == Seq::new(
            calls.len(),
            |k: int| calls[k].1,
        ),
        calls.len() == MAX_HISTORY + 1 ==> calls.last().0 && !can_activate(
            after_calls(calls.drop_last()),
        ) && after_calls(calls) == after_calls(calls.drop_last()),
    decreases calls.len(),
{
    if calls.len() > 0 {
        let front = calls.drop_last();
        assert forall|k: int| 0 <= k < front.len() implies (#[trigger] front[k]).0 == (k % 2
            == 0) by {
            assert(front[k] == calls[k]);
        }
        lemma_alternating_calls(front);
        if calls.len() <= MAX_HISTORY {
            let n = calls.len() - 1;
            assert(calls[n].0 == (n % 2 == 0));
            assert(after_calls(front).len() == n);
            assert(after_calls(calls) =~= Seq::new(calls.len(), |k: int| calls[k].1));
        } else if calls.len() == MAX_HISTORY + 1 {
            assert(calls[MAX_HISTORY as int].0 == (MAX_HISTORY % 2 == 0));
            assert(after_calls(front).len() == MAX_HISTORY);
        }
    }
}

/// Whether the identifier that owns `history` is active after its last
/// transition.
pub fn is_active(history: &Vec<u32>) -> (active: bool)
    ensures
        active == spec_is_active(history@),
{
    history.len() % 2 == 1
}

/// Whether the identifier that owns `history` counts as a member at `index`.
pub fn active_at(history: &Vec<u32>, index: u32) -> (active: bool)
    ensures
        active == spec_active_at(history@, index),
{
    let len = history.len();
    if len % 2 == 1 && history[len - 1] <= index {
        return true;
    }
    let spans: usize = len / 2;
    let mut j: usize = 0;
    while j < spans
        invariant
            len == history@.len(),
            spans == len / 2,
            j <= spans,
            forall|k: int| 0 <= k < j ==> !span_covers(history@, k, index),
        decreases spans - j,
    {
        if history[2 * j] <= index && index < history[2 * j + 1] {
            assert(span_covers(history@, j as int, index));
            return true;
        }
        j += 1;
    }
    false
}

} // verus!
