//! Seeded selection from a pool: a partial Fisher-Yates shuffle whose
//! random numbers come from a ChaCha20 generator keyed by the seed.
//!
//! Step `i` of the shuffle exchanges position `i` with a position drawn from
//! `i` to the end. The number drawn at step `i` depends on the seed, on `i`
//! and on the size of the pool alone, so drawing more elements never changes
//! the ones drawn first.

use rand::Rng;
use rand_chacha::ChaCha20Rng;
use rand_core::SeedableRng;
use vstd::prelude::*;

use crate::ident::{copy_bytes, ids_of};

verus! {

/// The number that a ChaCha20 generator seeded with `seed` and set to
/// stream `step` gives first when asked for a number below `bound`.
pub uninterp spec fn seeded_draw(seed: Seq<u8>, step: u64, bound: u64) -> u64;

/// `ChaCha20Rng::from_seed`, `set_stream` and `Rng::gen_range`: a number
/// from 0 up to, not including, `bound`. The generator is made anew from
/// the seed at each call, so the number depends on the arguments alone.
/// `gen_range` panics on an empty range, which `bound > 0` leaves out.
#[verifier::external_body]
pub(crate) fn draw_below(seed: &[u8; 32], step: u64, bound: u64) -> (drawn: u64)
    requires
        bound > 0,
    ensures
        drawn == seeded_draw(seed@, step, bound),
        drawn < bound,
{
    let mut rng = ChaCha20Rng::from_seed(*seed);
    rng.set_stream(step);
    rng.gen_range(0..bound)
}

/// The positions `0, 1, .., len - 1` in their own order.
pub open spec fn identity(len: nat) -> Seq<int> {
    Seq::new(len, |i: int| i)
}

/// `s` with what stands at `i` and at `j` exchanged.
pub open spec fn exchanged(s: Seq<int>, i: int, j: int) -> Seq<int> {
    s.update(i, s[j]).update(j, s[i])
}

/// The position that step `i` of the shuffle of `len` positions exchanges
/// position `i` with: one from `i` to `len - 1`.
pub open spec fn partner(len: nat, i: int, seed: Seq<u8>) -> int {
    i + seeded_draw(seed, i as u64, (len - i) as u64) as int % (len - i)
}

/// The order of the positions of a pool of `len` elements after the first
/// `steps` steps of the shuffle keyed by `seed`.
pub open spec fn shuffled(len: nat, steps: nat, seed: Seq<u8>) -> Seq<int>
    decreases steps,
{
    if steps == 0 {
        identity(len)
    } else {
        let before = shuffled(len, (steps - 1) as nat, seed);
        if steps <= len {
            exchanged(before, steps - 1, partner(len, steps - 1, seed))
        } else {
            before
        }
    }
}

/// How many elements a draw of `count` from a pool of `len` gives.
pub open spec fn drawn_count(len: nat, count: nat) -> nat {
    if count < len {
        count
    } else {
        len
    }
}

/// The elements drawn from `pool` when `count` are asked for under `seed`,
/// in the order in which they are drawn. A pool smaller than `count` is
/// drawn whole.
pub open spec fn selection(pool: Seq<Seq<u8>>, count: nat, seed: Seq<u8>) -> Seq<Seq<u8>> {
    let k = drawn_count(pool.len(), count);
    Seq::new(k, |i: int| pool[shuffled(pool.len(), k, seed)[i]])
}

/// What a draw of `already + more` elements adds to a draw of `already`.
pub open spec fn expansion(pool: Seq<Seq<u8>>, already: nat, more: nat, seed: Seq<u8>) -> Seq<
    Seq<u8>,
> {
    let whole = selection(pool, already + more, seed);
    whole.skip(drawn_count(whole.len(), already) as int)
}

/// Whether `order` holds each of the positions `0, .., len - 1` once.
pub open spec fn is_permutation(order: Seq<int>, len: nat) -> bool {
    &&& order.len() == len
    &&& forall|i: int| 0 <= i < len ==> 0 <= #[trigger] order[i] < len
    &&& forall|i: int, j: int| 0 <= i < j < len ==> order[i] != order[j]
}

/// The shuffle rearranges the positions and loses none.
pub proof fn lemma_shuffled_permutation(len: nat, steps: nat, seed: Seq<u8>)
    ensures
        is_permutation(shuffled(len, steps, seed), len),
    decreases steps,
{
    if steps > 0 {
        lemma_shuffled_permutation(len, (steps - 1) as nat, seed);
        if steps <= len {
            let before = shuffled(len, (steps - 1) as nat, seed);
            let i = steps - 1;
            let j = partner(len, i, seed);
            assert(i <= j < len);
            let after = exchanged(before, i, j);
            assert forall|a: int, b: int| 0 <= a < b < len implies after[a] != after[b] by {
                let pa = if a == i {
                    j
                } else if a == j {
                    i
                } else {
                    a
                };
                let pb = if b == i {
                    j
                } else if b == j {
                    i
                } else {
                    b
                };
                assert(after[a] == before[pa]);
                assert(after[b] == before[pb]);
                assert(pa != pb);
                if pa < pb {
                    assert(before[pa] != before[pb]);
                } else {
                    assert(before[pb] != before[pa]);
                }
            }
        }
    }
}

/// Later steps of the shuffle leave the positions drawn by earlier steps
/// as they are.
pub proof fn lemma_shuffled_stable(len: nat, fewer: nat, more: nat, seed: Seq<u8>)
    requires
        fewer <= more,
    ensures
        shuffled(len, more, seed).take(fewer as int) == shuffled(len, fewer, seed).take(
            fewer as int,
        ),
    decreases more,
{
    lemma_shuffled_permutation(len, fewer, seed);
    lemma_shuffled_permutation(len, more, seed);
    if fewer < more {
        lemma_shuffled_stable(len, fewer, (more - 1) as nat, seed);
        lemma_shuffled_permutation(len, (more - 1) as nat, seed);
        let before = shuffled(len, (more - 1) as nat, seed);
        if more <= len {
            let i = more - 1;
            let j = partner(len, i, seed);
            assert(i <= j < len);
            assert(exchanged(before, i, j).take(fewer as int) =~= before.take(fewer as int));
        }
    }
}

/// A draw gives as many elements as were asked for, or the whole pool where
/// the pool has fewer, and each of them is an element of the pool.
pub proof fn lemma_selection_from_pool(pool: Seq<Seq<u8>>, count: nat, seed: Seq<u8>)
    ensures
        selection(pool, count, seed).len() == drawn_count(pool.len(), count),
        forall|i: int|
            0 <= i < selection(pool, count, seed).len() ==> pool.contains(
                #[trigger] selection(pool, count, seed)[i],
            ),
{
    let k = drawn_count(pool.len(), count);
    lemma_shuffled_permutation(pool.len(), k, seed);
    let order = shuffled(pool.len(), k, seed);
    assert forall|i: int| 0 <= i < k implies pool.contains(
        #[trigger] selection(pool, count, seed)[i],
    ) by {
        assert(0 <= order[i] < pool.len());
        assert(pool[order[i]] == selection(pool, count, seed)[i]);
    }
}

/// A draw from a pool that holds no element twice holds no element twice.
pub proof fn lemma_selection_distinct(pool: Seq<Seq<u8>>, count: nat, seed: Seq<u8>)
    requires
        pool.no_duplicates(),
    ensures
        selection(pool, count, seed).no_duplicates(),
{
    let k = drawn_count(pool.len(), count);
    lemma_shuffled_permutation(pool.len(), k, seed);
    let order = shuffled(pool.len(), k, seed);
    let drawn = selection(pool, count, seed);
    assert forall|i: int, j: int| 0 <= i < k && 0 <= j < k && i != j implies drawn[i]
        != drawn[j] by {
        assert(0 <= order[i] < pool.len());
        assert(0 <= order[j] < pool.len());
        if i < j {
            assert(order[i] != order[j]);
        } else {
            assert(order[j] != order[i]);
        }
    }
}

/// A draw of at least as many elements as the pool has is the whole pool,
/// rearranged.
pub proof fn lemma_selection_exhausts(pool: Seq<Seq<u8>>, count: nat, seed: Seq<u8>)
    requires
        count >= pool.len(),
    ensures
        selection(pool, count, seed).len() == pool.len(),
        forall|id: Seq<u8>| pool.contains(id) <==> selection(pool, count, seed).contains(id),
{
    let len = pool.len();
    lemma_shuffled_permutation(len, len, seed);
    lemma_selection_from_pool(pool, count, seed);
    let order = shuffled(len, len, seed);
    let drawn = selection(pool, count, seed);
    assert forall|id: Seq<u8>| pool.contains(id) implies drawn.contains(id) by {
        let p = choose|p: int| 0 <= p < len && pool[p] == id;
        lemma_permutation_onto(order, len, p);
        let i = choose|i: int| 0 <= i < len && order[i] == p;
        assert(drawn[i] == id);
    }
}

/// Each position stands somewhere in a permutation of the positions.
pub proof fn lemma_permutation_onto(order: Seq<int>, len: nat, p: int)
    requires
        is_permutation(order, len),
        0 <= p < len,
    ensures
        exists|i: int| 0 <= i < len && order[i] == p,
{
    if !order.contains(p) {
        let range = Set::new(|x: int| 0 <= x < len);
        let image = order.to_set();
        vstd::set_lib::lemma_int_range(0, len as int);
        assert(range =~= vstd::set_lib::set_int_range(0, len as int));
        assert(order.no_duplicates());
        order.unique_seq_to_set();
        assert(image.subset_of(range.remove(p))) by {
            assert forall|x: int| image.contains(x) implies range.remove(p).contains(x) by {
                let i = choose|i: int| 0 <= i < order.len() && order[i] == x;
                assert(0 <= order[i] < len);
            }
        }
        vstd::set_lib::lemma_len_subset(image, range.remove(p));
        assert(false);
    }
    let i = choose|i: int| 0 <= i < order.len() && order[i] == p;
    assert(0 <= i < len && order[i] == p);
}

/// A draw of `already` elements followed by its expansion by `more` is the
/// draw of `already + more` elements: the expansion is the tail of the
/// larger draw, and the smaller draw is its head.
pub proof fn lemma_expansion_extends(pool: Seq<Seq<u8>>, already: nat, more: nat, seed: Seq<u8>)
    ensures
        selection(pool, already, seed) + expansion(pool, already, more, seed) == selection(
            pool,
            already + more,
            seed,
        ),
{
    let len = pool.len();
    let small = drawn_count(len, already);
    let large = drawn_count(len, already + more);
    lemma_shuffled_stable(len, small, large, seed);
    lemma_shuffled_permutation(len, small, seed);
    lemma_shuffled_permutation(len, large, seed);
    let head = selection(pool, already, seed);
    let whole = selection(pool, already + more, seed);
    assert(drawn_count(whole.len(), already) == small);
    assert forall|i: int| 0 <= i < small implies head[i] == whole[i] by {
        assert(shuffled(len, large, seed).take(small as int)[i] == shuffled(len, small, seed).take(
            small as int,
        )[i]);
    }
    assert(head + whole.skip(small as int) =~= whole);
}

/// Where the pool holds no element twice, nothing that an expansion adds
/// was drawn before.
pub proof fn lemma_expansion_disjoint(pool: Seq<Seq<u8>>, already: nat, more: nat, seed: Seq<u8>)
    requires
        pool.no_duplicates(),
    ensures
        forall|i: int, j: int|
            0 <= i < selection(pool, already, seed).len() && 0 <= j < expansion(
                pool,
                already,
                more,
                seed,
            ).len() ==> selection(pool, already, seed)[i] != expansion(
                pool,
                already,
                more,
                seed,
            )[j],
{
    lemma_expansion_extends(pool, already, more, seed);
    lemma_selection_distinct(pool, already + more, seed);
    let head = selection(pool, already, seed);
    let tail = expansion(pool, already, more, seed);
    let whole = selection(pool, already + more, seed);
    assert forall|i: int, j: int| 0 <= i < head.len() && 0 <= j < tail.len() implies head[i]
        != tail[j] by {
        assert((head + tail)[i] == head[i]);
        assert((head + tail)[head.len() + j] == tail[j]);
    }
}

/// An expansion of a draw by the number of elements that the draw gave
/// continues it: the draw of `count` elements followed by the expansion is
/// the draw of `count + more` elements, and where the pool holds no element
/// twice the expansion holds nothing that was drawn before.
pub proof fn lemma_expand_after_select(pool: Seq<Seq<u8>>, count: nat, more: nat, seed: Seq<u8>)
    ensures
        selection(pool, count, seed) + expansion(
            pool,
            selection(pool, count, seed).len(),
            more,
            seed,
        ) == selection(pool, count + more, seed),
        pool.no_duplicates() ==> forall|i: int, j: int|
            0 <= i < selection(pool, count, seed).len() && 0 <= j < expansion(
                pool,
                selection(pool, count, seed).len(),
                more,
                seed,
            ).len() ==> selection(pool, count, seed)[i] != expansion(
                pool,
                selection(pool, count, seed).len(),
                more,
                seed,
            )[j],
{
    let first = selection(pool, count, seed);
    let given = first.len();
    lemma_expansion_extends(pool, given, more, seed);
    assert(selection(pool, given, seed) == first);
    assert(selection(pool, given + more, seed) == selection(pool, count + more, seed));
    if pool.no_duplicates() {
        lemma_expansion_disjoint(pool, given, more, seed);
    }
}

/// Draws `count` elements from `pool` under `seed`, or the whole pool where
/// it has fewer, by the first steps of a Fisher-Yates shuffle.
pub fn draw(pool: &Vec<Vec<u8>>, count: usize, seed: &[u8; 32]) -> (drawn: Vec<Vec<u8>>)
    ensures
        ids_of(drawn@) == selection(ids_of(pool@), count as nat, seed@),
        drawn@.len() == drawn_count(pool@.len(), count as nat),
{
    let len = pool.len();
    let k = if count < len {
        count
    } else {
        len
    };
    let mut order: Vec<usize> = Vec::new();
    let mut n: usize = 0;
    while n < len
        invariant
            n <= len,
            order@.len() == n,
            forall|a: int| 0 <= a < n ==> order@[a] == a,
        decreases len - n,
    {
        order.push(n);
        n += 1;
    }
    let mut i: usize = 0;
    while i < k
        invariant
            i <= k <= len,
            len == pool@.len(),
            order@.len() == len,
            forall|a: int| 0 <= a < len ==> order@[a] as int == shuffled(len as nat, i as nat, seed@)[a],
        decreases k - i,
    {
        proof {
            lemma_shuffled_permutation(len as nat, i as nat, seed@);
        }
        let offset = draw_below(seed, i as u64, (len - i) as u64);
        let j: usize = i + offset as usize;
        proof {
            vstd::arithmetic::div_mod::lemma_small_mod(offset as nat, (len - i) as nat);
        }
        let at_i = order[i];
        let at_j = order[j];
        order.set(i, at_j);
        order.set(j, at_i);
        i += 1;
    }
    let mut drawn: Vec<Vec<u8>> = Vec::new();
    let mut m: usize = 0;
    while m < k
        invariant
            m <= k <= len,
            len == pool@.len(),
            order@.len() == len,
            k == drawn_count(len as nat, count as nat),
            forall|a: int| 0 <= a < len ==> order@[a] as int == shuffled(len as nat, k as nat, seed@)[a],
            drawn@.len() == m,
            forall|a: int|
                0 <= a < m ==> drawn@[a]@ == selection(ids_of(pool@), count as nat, seed@)[a],
        decreases k - m,
    {
        proof {
            lemma_shuffled_permutation(len as nat, k as nat, seed@);
        }
        let at: usize = order[m];
        drawn.push(copy_bytes(&pool[at]));
        m += 1;
    }
    assert(ids_of(drawn@) =~= selection(ids_of(pool@), count as nat, seed@));
    drawn
}

} // verus!
