//! The order of byte strings by which the membership store lists its keys.

use vstd::prelude::*;

verus! {

/// Whether `a` comes before `b` when byte strings are compared byte by
/// byte from the front, a proper prefix coming before what extends it.
pub open spec fn lex_less(a: Seq<u8>, b: Seq<u8>) -> bool
    decreases a.len(),
{
    if b.len() == 0 {
        false
    } else if a.len() == 0 {
        true
    } else if a[0] != b[0] {
        a[0] < b[0]
    } else {
        lex_less(a.drop_first(), b.drop_first())
    }
}

/// Whether each key of `keys` comes before all keys after it.
pub open spec fn strictly_ascending(keys: Seq<Seq<u8>>) -> bool {
    forall|i: int, j: int| 0 <= i < j < keys.len() ==> lex_less(keys[i], keys[j])
}

/// No byte string comes before itself.
pub proof fn lemma_lex_irreflexive(a: Seq<u8>)
    ensures
        !lex_less(a, a),
    decreases a.len(),
{
    if a.len() > 0 {
        lemma_lex_irreflexive(a.drop_first());
    }
}

/// Of two byte strings, at most one comes before the other.
pub proof fn lemma_lex_asymmetric(a: Seq<u8>, b: Seq<u8>)
    ensures
        !(lex_less(a, b) && lex_less(b, a)),
    decreases a.len(),
{
    if a.len() > 0 && b.len() > 0 && a[0] == b[0] {
        lemma_lex_asymmetric(a.drop_first(), b.drop_first());
    }
}

/// What comes before something that comes before `c` comes before `c`.
pub proof fn lemma_lex_transitive(a: Seq<u8>, b: Seq<u8>, c: Seq<u8>)
    requires
        lex_less(a, b),
        lex_less(b, c),
    ensures
        lex_less(a, c),
    decreases a.len(),
{
    if a.len() > 0 && b.len() > 0 && c.len() > 0 && a[0] == b[0] && b[0] == c[0] {
        lemma_lex_transitive(a.drop_first(), b.drop_first(), c.drop_first());
    }
}

/// Of two different byte strings, one comes before the other.
pub proof fn lemma_lex_total(a: Seq<u8>, b: Seq<u8>)
    ensures
        a == b || lex_less(a, b) || lex_less(b, a),
    decreases a.len(),
{
    if a.len() == 0 || b.len() == 0 {
        if a.len() == 0 && b.len() == 0 {
            assert(a =~= b);
        }
    } else if a[0] == b[0] {
        lemma_lex_total(a.drop_first(), b.drop_first());
        if a.drop_first() == b.drop_first() {
            assert(a =~= seq![a[0]] + a.drop_first());
            assert(b =~= seq![b[0]] + b.drop_first());
        }
    }
}

/// Of two byte strings of one length of which the first comes first, the
/// first still comes first when each gets one more byte.
pub proof fn lemma_lex_push(a: Seq<u8>, b: Seq<u8>, c: u8, d: u8)
    requires
        a.len() == b.len(),
        lex_less(a, b),
    ensures
        lex_less(a.push(c), b.push(d)),
    decreases a.len(),
{
    if a[0] == b[0] {
        assert(a.push(c).drop_first() =~= a.drop_first().push(c));
        assert(b.push(d).drop_first() =~= b.drop_first().push(d));
        lemma_lex_push(a.drop_first(), b.drop_first(), c, d);
    }
}

/// Of two byte strings that differ in their last byte only, the one with
/// the smaller last byte comes first.
pub proof fn lemma_lex_last(p: Seq<u8>, c: u8, d: u8)
    requires
        c < d,
    ensures
        lex_less(p.push(c), p.push(d)),
    decreases p.len(),
{
    if p.len() > 0 {
        assert(p.push(c).drop_first() =~= p.drop_first().push(c));
        assert(p.push(d).drop_first() =~= p.drop_first().push(d));
        lemma_lex_last(p.drop_first(), c, d);
    }
}

/// Whether `list` holds the keys of `keys`, each once, in ascending order.
pub open spec fn lists(list: Seq<Seq<u8>>, keys: Set<Seq<u8>>) -> bool {
    &&& strictly_ascending(list)
    &&& forall|k: Seq<u8>| list.contains(k) <==> keys.contains(k)
}

/// A finite set of keys that is not empty has a last key.
pub proof fn lemma_last_key(keys: Set<Seq<u8>>) -> (last: Seq<u8>)
    requires
        keys.finite(),
        keys.len() > 0,
    ensures
        keys.contains(last),
        forall|k: Seq<u8>| keys.contains(k) && k != last ==> lex_less(k, last),
    decreases keys.len(),
{
    let x = keys.choose();
    let rest = keys.remove(x);
    if rest.len() == 0 {
        assert forall|k: Seq<u8>| keys.contains(k) && k != x implies lex_less(k, x) by {
            assert(rest.contains(k));
        }
        x
    } else {
        let m = lemma_last_key(rest);
        lemma_lex_total(x, m);
        if lex_less(m, x) {
            assert forall|k: Seq<u8>| keys.contains(k) && k != x implies lex_less(k, x) by {
                assert(rest.contains(k));
                if k != m {
                    lemma_lex_transitive(k, m, x);
                }
            }
            x
        } else {
            assert forall|k: Seq<u8>| keys.contains(k) && k != m implies lex_less(k, m) by {
                if k != x {
                    assert(rest.contains(k));
                }
            }
            m
        }
    }
}

/// Every finite set of keys can be listed in ascending order.
pub proof fn lemma_listing_exists(keys: Set<Seq<u8>>) -> (list: Seq<Seq<u8>>)
    requires
        keys.finite(),
    ensures
        lists(list, keys),
    decreases keys.len(),
{
    if keys.len() == 0 {
        let list = Seq::<Seq<u8>>::empty();
        assert forall|k: Seq<u8>| list.contains(k) <==> keys.contains(k) by {
            if keys.contains(k) {
                assert(keys.remove(k).len() + 1 == keys.len());
            }
        }
        list
    } else {
        let last = lemma_last_key(keys);
        let front = lemma_listing_exists(keys.remove(last));
        let list = front.push(last);
        assert forall|i: int, j: int| 0 <= i < j < list.len() implies lex_less(list[i], list[j]) by {
            if j < front.len() {
                assert(lex_less(front[i], front[j]));
            } else {
                assert(front.contains(front[i]));
                assert(keys.remove(last).contains(front[i]));
            }
        }
        assert forall|k: Seq<u8>| list.contains(k) <==> keys.contains(k) by {
            if list.contains(k) {
                let i = choose|i: int| 0 <= i < list.len() && list[i] == k;
                if i < front.len() {
                    assert(front.contains(front[i]));
                }
            }
            if keys.contains(k) {
                if k == last {
                    assert(list[front.len() as int] == k);
                } else {
                    assert(keys.remove(last).contains(k));
                    assert(front.contains(k));
                    let i = choose|i: int| 0 <= i < front.len() && front[i] == k;
                    assert(list[i] == k);
                }
            }
        }
        list
    }
}

/// A strictly ascending list holds no key twice.
pub proof fn lemma_ascending_distinct(keys: Seq<Seq<u8>>)
    requires
        strictly_ascending(keys),
    ensures
        keys.no_duplicates(),
{
    assert forall|i: int, j: int| 0 <= i < keys.len() && 0 <= j < keys.len() && i != j implies keys[i]
        != keys[j] by {
        lemma_lex_irreflexive(keys[i]);
    }
}

/// Two strictly ascending lists that hold the same keys are the same list.
pub proof fn lemma_ascending_unique(a: Seq<Seq<u8>>, b: Seq<Seq<u8>>)
    requires
        strictly_ascending(a),
        strictly_ascending(b),
        forall|k: Seq<u8>| a.contains(k) <==> b.contains(k),
    ensures
        a == b,
    decreases a.len(),
{
    if a.len() == 0 {
        if b.len() > 0 {
            assert(b.contains(b[0]));
        }
        assert(a =~= b);
    } else {
        assert(a.contains(a[0]));
        assert(b.contains(a[0]));
        let k = choose|k: int| 0 <= k < b.len() && b[k] == a[0];
        assert(b.contains(b[0]));
        let m = choose|m: int| 0 <= m < a.len() && a[m] == b[0];
        if k > 0 {
            lemma_lex_irreflexive(a[0]);
            lemma_lex_asymmetric(a[0], b[0]);
        }
        assert(a[0] == b[0]);
        let ta = a.drop_first();
        let tb = b.drop_first();
        assert forall|x: Seq<u8>| ta.contains(x) <==> tb.contains(x) by {
            lemma_lex_irreflexive(a[0]);
            if ta.contains(x) {
                let i = choose|i: int| 0 <= i < ta.len() && ta[i] == x;
                assert(a[i + 1] == x);
                assert(a.contains(x));
                let j = choose|j: int| 0 <= j < b.len() && b[j] == x;
                assert(lex_less(a[0], a[i + 1]));
                assert(j != 0);
                assert(tb[j - 1] == x);
            }
            if tb.contains(x) {
                let i = choose|i: int| 0 <= i < tb.len() && tb[i] == x;
                assert(b[i + 1] == x);
                assert(b.contains(x));
                let j = choose|j: int| 0 <= j < a.len() && a[j] == x;
                assert(lex_less(b[0], b[i + 1]));
                assert(j != 0);
                assert(ta[j - 1] == x);
            }
        }
        assert forall|i: int, j: int| 0 <= i < j < ta.len() implies lex_less(ta[i], ta[j]) by {
            assert(lex_less(a[i + 1], a[j + 1]));
        }
        assert forall|i: int, j: int| 0 <= i < j < tb.len() implies lex_less(tb[i], tb[j]) by {
            assert(lex_less(b[i + 1], b[j + 1]));
        }
        lemma_ascending_unique(ta, tb);
        assert(a =~= seq![a[0]] + ta);
        assert(b =~= seq![b[0]] + tb);
    }
}

} // verus!
