//! What the entries of the record say of membership, read from the first
//! entry on, and how the stored histories answer the same question.

use vstd::prelude::*;

use crate::batch::{DataView, Kind};
use crate::history::{after_remove, below, ordered, span_covers, spec_active_at, spec_is_active};

verus! {

/// The history of `id` after `entry` is carried out on the history `h`:
/// an addition that names `id` records an activation at the epoch of the
/// entry, a removal that names it records a deactivation if `id` is
/// active, and any other entry leaves the history as it is.
pub open spec fn apply_entry(h: Seq<u32>, entry: DataView, id: Seq<u8>) -> Seq<u32> {
    if !entry.jurors.contains(id) {
        h
    } else {
        match entry.kind {
            Kind::Add => h.push(entry.jurors_index),
            Kind::Remove => after_remove(h, entry.jurors_index),
            _ => h,
        }
    }
}

/// The history of `id` after the entries of `entries` are carried out in
/// their order, starting from nothing.
pub open spec fn replay(entries: Seq<DataView>, id: Seq<u8>) -> Seq<u32>
    decreases entries.len(),
{
    if entries.len() == 0 {
        Seq::empty()
    } else {
        apply_entry(replay(entries.drop_last(), id), entries.last(), id)
    }
}

/// Whether `id` is a member of the pool after the entries of `entries`:
/// the last addition or removal that names `id` decides, and an identifier
/// that none names is no member.
pub open spec fn member_after(entries: Seq<DataView>, id: Seq<u8>) -> bool
    decreases entries.len(),
{
    if entries.len() == 0 {
        false
    } else {
        let entry = entries.last();
        if entry.jurors.contains(id) && entry.kind == Kind::Add {
            true
        } else if entry.jurors.contains(id) && entry.kind == Kind::Remove {
            false
        } else {
            member_after(entries.drop_last(), id)
        }
    }
}

/// Whether each entry carries its own position as its epoch.
pub open spec fn stamped(entries: Seq<DataView>) -> bool {
    forall|i: int| 0 <= i < entries.len() ==> (#[trigger] entries[i]).jurors_index == i
}

/// Whether no addition names an identifier that the entries before it
/// left active.
pub open spec fn admissible(entries: Seq<DataView>) -> bool {
    forall|i: int, id: Seq<u8>|
        0 <= i < entries.len() && (#[trigger] entries[i]).kind == Kind::Add
            && #[trigger] entries[i].jurors.contains(id) ==> !spec_is_active(
            replay(entries.take(i), id),
        )
}

/// Before its last activation, a history answers as if that activation
/// and all after it had not happened: appending a transition at or after
/// `epoch` to a history whose transitions all lie below `epoch` changes
/// nothing for an index below `epoch`.
pub proof fn lemma_push_keeps_past(h: Seq<u32>, at: u32, index: u32)
    requires
        below(h, at as int),
        index < at,
    ensures
        spec_active_at(h.push(at), index) == spec_active_at(h, index),
{
    let g = h.push(at);
    if spec_active_at(h, index) {
        if h.len() % 2 == 1 && h.last() <= index {
            let j = (h.len() - 1) / 2;
            assert(g[2 * j] == h.last());
            assert(span_covers(g, j, index));
        } else {
            let j = choose|j: int| span_covers(h, j, index);
            assert(g[2 * j] == h[2 * j]);
            assert(g[2 * j + 1] == h[2 * j + 1]);
            assert(span_covers(g, j, index));
        }
    }
    if spec_active_at(g, index) {
        if g.len() % 2 == 1 && g.last() <= index {
            assert(false);
        } else {
            let j = choose|j: int| span_covers(g, j, index);
            if 2 * j + 1 == g.len() - 1 {
                assert(g[2 * j] == h.last());
                assert(h.len() % 2 == 1);
            } else {
                assert(g[2 * j] == h[2 * j]);
                assert(g[2 * j + 1] == h[2 * j + 1]);
                assert(span_covers(h, j, index));
            }
        }
    }
}

/// At an index that no transition lies after, a history says what it says
/// of the present.
pub proof fn lemma_present(h: Seq<u32>, index: u32)
    requires
        below(h, index + 1),
    ensures
        spec_active_at(h, index) == spec_is_active(h),
{
    if spec_active_at(h, index) && !(h.len() % 2 == 1 && h.last() <= index) {
        let j = choose|j: int| span_covers(h, j, index);
        assert(h[2 * j + 1] < index + 1);
    }
}

/// Inside a span an ordered history says "member", and from the end of a
/// span up to the next activation it says "no member".
pub proof fn lemma_spans(h: Seq<u32>, j: int, index: u32)
    requires
        ordered(h),
        0 <= j,
        2 * j + 1 < h.len(),
    ensures
        h[2 * j] <= index < h[2 * j + 1] ==> spec_active_at(h, index),
        h[2 * j + 1] <= index && (2 * j + 2 < h.len() ==> index < h[2 * j + 2])
            ==> !spec_active_at(h, index),
{
    if h[2 * j] <= index < h[2 * j + 1] {
        assert(span_covers(h, j, index));
    }
    if h[2 * j + 1] <= index && (2 * j + 2 < h.len() ==> index < h[2 * j + 2]) {
        if spec_active_at(h, index) {
            if h.len() % 2 == 1 && h.last() <= index {
                assert(2 * j + 2 <= h.len() - 1);
                assert(h[2 * j + 2] <= h[h.len() - 1]);
            } else {
                let k = choose|k: int| span_covers(h, k, index);
                if k <= j {
                    assert(h[2 * k + 1] <= h[2 * j + 1]);
                } else {
                    assert(h[2 * j + 2] <= h[2 * k]);
                }
            }
        }
    }
}

/// The history that a stamped, admissible list of entries gives to an
/// identifier holds epochs below the number of entries, in ascending
/// order, and is active exactly if the identifier is a member after the
/// entries.
pub proof fn lemma_replay_shape(entries: Seq<DataView>, id: Seq<u8>)
    requires
        stamped(entries),
        admissible(entries),
    ensures
        below(replay(entries, id), entries.len() as int),
        ordered(replay(entries, id)),
        spec_is_active(replay(entries, id)) == member_after(entries, id),
    decreases entries.len(),
{
    if entries.len() > 0 {
        let n = entries.len() - 1;
        let front = entries.drop_last();
        lemma_prefix_admissible(entries, n);
        assert(front =~= entries.take(n));
        lemma_replay_shape(front, id);
        let h = replay(front, id);
        let entry = entries[n];
        assert(entry.jurors_index == n);
        if entry.jurors.contains(id) && entry.kind == Kind::Add {
            assert(!spec_is_active(replay(entries.take(n), id)));
        }
        let g = replay(entries, id);
        assert forall|i: int, j: int| 0 <= i <= j < g.len() implies g[i] <= g[j] by {
            if j < h.len() {
                assert(g[i] == h[i] && g[j] == h[j]);
            } else if i < h.len() {
                assert(g[i] == h[i]);
            }
        }
    }
}

/// The first `n` entries of a stamped, admissible list are such a list.
pub proof fn lemma_prefix_admissible(entries: Seq<DataView>, n: int)
    requires
        stamped(entries),
        admissible(entries),
        0 <= n <= entries.len(),
    ensures
        stamped(entries.take(n)),
        admissible(entries.take(n)),
{
    let front = entries.take(n);
    assert forall|i: int, id: Seq<u8>|
        0 <= i < front.len() && (#[trigger] front[i]).kind == Kind::Add
            && #[trigger] front[i].jurors.contains(id) implies !spec_is_active(
        replay(front.take(i), id),
    ) by {
        assert(front.take(i) =~= entries.take(i));
        assert(entries[i].kind == Kind::Add && entries[i].jurors.contains(id));
    }
}

/// The stored histories reconstruct the past: at each epoch that the
/// entries reach, the history that the entries give to an identifier says
/// "member" exactly if the identifier is a member after the entries up to
/// and including the one of that epoch.
pub proof fn lemma_history_replays(entries: Seq<DataView>, id: Seq<u8>, index: u32)
    requires
        stamped(entries),
        admissible(entries),
        index < entries.len(),
    ensures
        spec_active_at(replay(entries, id), index) == member_after(
            entries.take(index + 1),
            id,
        ),
    decreases entries.len(),
{
    if entries.len() == index + 1 {
        assert(entries.take(index + 1) =~= entries);
        lemma_replay_shape(entries, id);
        lemma_present(replay(entries, id), index);
    } else {
        let n = entries.len() - 1;
        let front = entries.drop_last();
        lemma_prefix_admissible(entries, n);
        assert(front =~= entries.take(n));
        lemma_history_replays(front, id, index);
        assert(front.take(index + 1) =~= entries.take(index + 1));
        lemma_replay_shape(front, id);
        let h = replay(front, id);
        let entry = entries[n];
        assert(entry.jurors_index == n);
        if replay(entries, id) != h {
            assert(replay(entries, id) == h.push(n as u32));
            lemma_push_keeps_past(h, n as u32, index);
        }
    }
}

} // verus!
