//! Sequences of `(key, value)` pairs kept in increasing key order, the model
//! of the path-keyed maps of the build (rendered files, grouped regions).
use vstd::prelude::*;

use crate::text::{
    lemma_seq_less_asymmetric, lemma_seq_less_irreflexive, lemma_seq_less_total,
    lemma_seq_less_transitive, seq_less,
};

verus! {

broadcast use vstd::seq::group_seq_axioms;

/// Keys strictly increase along the sequence.
pub open spec fn sorted_by_key<V>(s: Seq<(Seq<char>, V)>) -> bool {
    forall|i: int, j: int| 0 <= i < j < s.len() ==> seq_less(#[trigger] s[i].0, #[trigger] s[j].0)
}

/// The value bound to `k`, if any.
pub open spec fn lookup<V>(s: Seq<(Seq<char>, V)>, k: Seq<char>) -> Option<V>
    decreases s.len(),
{
    if s.len() == 0 {
        None
    } else if s[0].0 == k {
        Some(s[0].1)
    } else {
        lookup(s.drop_first(), k)
    }
}

/// Bind `k` to `v`: replace the value of an existing key, or insert the pair
/// at its place in key order.
pub open spec fn insert_sorted<V>(s: Seq<(Seq<char>, V)>, k: Seq<char>, v: V) -> Seq<(Seq<char>, V)>
    decreases s.len(),
{
    if s.len() == 0 {
        seq![(k, v)]
    } else if s[0].0 == k {
        seq![(k, v)] + s.drop_first()
    } else if seq_less(k, s[0].0) {
        seq![(k, v)] + s
    } else {
        seq![s[0]] + insert_sorted(s.drop_first(), k, v)
    }
}

/// The keys of the sequence, in order.
pub open spec fn keys_of<V>(s: Seq<(Seq<char>, V)>) -> Seq<Seq<char>> {
    s.map_values(|e: (Seq<char>, V)| e.0)
}

pub proof fn lemma_sorted_drop_first<V>(s: Seq<(Seq<char>, V)>)
    requires
        sorted_by_key(s),
        s.len() > 0,
    ensures
        sorted_by_key(s.drop_first()),
        forall|j: int| 0 <= j < s.drop_first().len() ==> seq_less(s[0].0, #[trigger] s.drop_first()[j].0),
{
    assert forall|i: int, j: int| 0 <= i < j < s.drop_first().len() implies seq_less(
        #[trigger] s.drop_first()[i].0,
        #[trigger] s.drop_first()[j].0,
    ) by {
        assert(s.drop_first()[i] == s[i + 1]);
        assert(s.drop_first()[j] == s[j + 1]);
    }
    assert forall|j: int| 0 <= j < s.drop_first().len() implies seq_less(
        s[0].0,
        #[trigger] s.drop_first()[j].0,
    ) by {
        assert(s.drop_first()[j] == s[j + 1]);
    }
}

/// In a sorted sequence a key smaller than the first key is absent.
pub proof fn lemma_lookup_absent_below<V>(s: Seq<(Seq<char>, V)>, k: Seq<char>)
    requires
        sorted_by_key(s),
        s.len() > 0,
        seq_less(k, s[0].0),
    ensures
        lookup(s, k) is None,
    decreases s.len(),
{
    lemma_seq_less_irreflexive(k);
    assert(s[0].0 != k);
    if s.len() == 1 {
        assert(s.drop_first().len() == 0);
        assert(lookup(s.drop_first(), k) is None);
    }
    if s.len() > 1 {
        lemma_sorted_drop_first(s);
        lemma_seq_less_transitive(k, s[0].0, s[1].0);
        assert(s.drop_first()[0] == s[1]);
        lemma_lookup_absent_below(s.drop_first(), k);
    }
}

/// Lookup finds exactly the pair at the index holding the key.
pub proof fn lemma_lookup_index<V>(s: Seq<(Seq<char>, V)>, i: int)
    requires
        sorted_by_key(s),
        0 <= i < s.len(),
    ensures
        lookup(s, s[i].0) == Some(s[i].1),
    decreases i,
{
    if i > 0 {
        lemma_sorted_drop_first(s);
        assert(seq_less(s[0].0, s[i].0));
        lemma_seq_less_irreflexive(s[0].0);
        assert(s.drop_first()[i - 1] == s[i]);
        lemma_lookup_index(s.drop_first(), i - 1);
    }
}

/// A key held at no index is not found.
pub proof fn lemma_lookup_none<V>(s: Seq<(Seq<char>, V)>, k: Seq<char>)
    requires
        forall|i: int| 0 <= i < s.len() ==> (#[trigger] s[i]).0 != k,
    ensures
        lookup(s, k) is None,
    decreases s.len(),
{
    if s.len() > 0 {
        assert(s[0].0 != k);
        assert forall|i: int| 0 <= i < s.drop_first().len() implies (
        #[trigger] s.drop_first()[i]).0 != k by {
            assert(s.drop_first()[i] == s[i + 1]);
        }
        lemma_lookup_none(s.drop_first(), k);
    }
}

/// Insertion keeps keys sorted, binds the key, and leaves other keys alone.
pub proof fn lemma_insert_sorted<V>(s: Seq<(Seq<char>, V)>, k: Seq<char>, v: V)
    requires
        sorted_by_key(s),
    ensures
        sorted_by_key(insert_sorted(s, k, v)),
        lookup(insert_sorted(s, k, v), k) == Some(v),
        forall|k2: Seq<char>| k2 != k ==> lookup(insert_sorted(s, k, v), k2) == lookup(s, k2),
        insert_sorted(s, k, v).len() == if lookup(s, k) is Some { s.len() } else { s.len() + 1 },
        forall|i: int|
            0 <= i < insert_sorted(s, k, v).len() ==> (#[trigger] insert_sorted(s, k, v)[i].0 == k
                || lookup(s, insert_sorted(s, k, v)[i].0) is Some),
    decreases s.len(),
{
    let r = insert_sorted(s, k, v);
    if s.len() == 0 {
        assert forall|k2: Seq<char>| k2 != k implies lookup(r, k2) == lookup(s, k2) by {
            assert(r.drop_first().len() == 0);
            assert(lookup(r.drop_first(), k2) is None);
        }
    } else if s[0].0 == k {
        lemma_sorted_drop_first(s);
        assert forall|i: int, j: int| 0 <= i < j < r.len() implies seq_less(
            #[trigger] r[i].0,
            #[trigger] r[j].0,
        ) by {
            if i == 0 {
                assert(r[j] == s.drop_first()[j - 1]);
            } else {
                assert(r[i] == s[i]);
                assert(r[j] == s[j]);
            }
        }
        assert forall|k2: Seq<char>| k2 != k implies lookup(r, k2) == lookup(s, k2) by {
            assert(r.drop_first() =~= s.drop_first());
        }
        assert forall|i: int| 0 <= i < r.len() implies (#[trigger] r[i].0 == k || lookup(
            s,
            r[i].0,
        ) is Some) by {
            if i > 0 {
                assert(r[i] == s[i]);
                lemma_lookup_index(s, i);
            }
        }
    } else if seq_less(k, s[0].0) {
        assert forall|i: int, j: int| 0 <= i < j < r.len() implies seq_less(
            #[trigger] r[i].0,
            #[trigger] r[j].0,
        ) by {
            if i == 0 {
                assert(r[j] == s[j - 1]);
                if j - 1 > 0 {
                    lemma_seq_less_transitive(k, s[0].0, s[j - 1].0);
                }
            } else {
                assert(r[i] == s[i - 1]);
                assert(r[j] == s[j - 1]);
            }
        }
        lemma_lookup_absent_below(s, k);
        assert forall|k2: Seq<char>| k2 != k implies lookup(r, k2) == lookup(s, k2) by {
            assert(r.drop_first() =~= s);
        }
        assert forall|i: int| 0 <= i < r.len() implies (#[trigger] r[i].0 == k || lookup(
            s,
            r[i].0,
        ) is Some) by {
            if i > 0 {
                assert(r[i] == s[i - 1]);
                lemma_lookup_index(s, i - 1);
            }
        }
    } else {
        lemma_sorted_drop_first(s);
        let t = s.drop_first();
        lemma_insert_sorted(t, k, v);
        let rt = insert_sorted(t, k, v);
        assert(r == seq![s[0]] + rt);
        lemma_seq_less_total(k, s[0].0);
        assert(seq_less(s[0].0, k));
        assert forall|i: int, j: int| 0 <= i < j < r.len() implies seq_less(
            #[trigger] r[i].0,
            #[trigger] r[j].0,
        ) by {
            if i == 0 {
                assert(r[j] == rt[j - 1]);
                if rt[j - 1].0 != k {
                    lemma_lookup_some_index(t, rt[j - 1].0);
                    let m = choose|m: int| 0 <= m < t.len() && (#[trigger] t[m]).0 == rt[j - 1].0
                        && lookup(t, rt[j - 1].0) == Some(t[m].1);
                    assert(seq_less(s[0].0, t[m].0));
                }
            } else {
                assert(r[i] == rt[i - 1]);
                assert(r[j] == rt[j - 1]);
            }
        }
        lemma_seq_less_irreflexive(k);
        assert(r[0] == s[0]);
        assert(r.drop_first() =~= rt);
        assert(s[0].0 != k);
        assert forall|k2: Seq<char>| k2 != k implies lookup(r, k2) == lookup(s, k2) by {
            assert(r[0] == s[0]);
            assert(r.drop_first() =~= rt);
            assert(lookup(rt, k2) == lookup(t, k2));
            if s[0].0 != k2 {
                assert(lookup(r, k2) == lookup(rt, k2));
                assert(lookup(s, k2) == lookup(t, k2));
            }
        }
        assert forall|i: int| 0 <= i < r.len() implies (#[trigger] r[i].0 == k || lookup(
            s,
            r[i].0,
        ) is Some) by {
            if i > 0 {
                assert(r[i] == rt[i - 1]);
                if rt[i - 1].0 != k {
                    lemma_lookup_some_index(t, rt[i - 1].0);
                    let m = choose|m: int| 0 <= m < t.len() && (#[trigger] t[m]).0 == rt[i - 1].0
                        && lookup(t, rt[i - 1].0) == Some(t[m].1);
                    assert(seq_less(s[0].0, t[m].0));
                    lemma_seq_less_irreflexive(s[0].0);
                    assert(s[0].0 != rt[i - 1].0);
                }
            }
        }
    }
}

/// A key that is found sits at some index of the sequence, and in a sorted
/// sequence all later-than-first keys exceed the first.
pub proof fn lemma_lookup_some_index<V>(s: Seq<(Seq<char>, V)>, k: Seq<char>)
    requires
        lookup(s, k) is Some,
    ensures
        exists|i: int| 0 <= i < s.len() && (#[trigger] s[i]).0 == k && lookup(s, k) == Some(s[i].1),
    decreases s.len(),
{
    if s[0].0 == k {
        assert(s[0].0 == k);
    } else {
        lemma_lookup_some_index(s.drop_first(), k);
        let i = choose|i: int|
            0 <= i < s.drop_first().len() && (#[trigger] s.drop_first()[i]).0 == k && lookup(
                s.drop_first(),
                k,
            ) == Some(s.drop_first()[i].1);
        assert(s[i + 1] == s.drop_first()[i]);
    }
}

/// The position at which `insert_sorted` places `k`, given the index of the
/// first key that does not precede `k`.
pub proof fn lemma_insert_sorted_split<V>(s: Seq<(Seq<char>, V)>, k: Seq<char>, v: V, i: int)
    requires
        sorted_by_key(s),
        0 <= i <= s.len(),
        forall|j: int| 0 <= j < i ==> seq_less(#[trigger] s[j].0, k),
        i < s.len() ==> !seq_less(s[i].0, k),
    ensures
        insert_sorted(s, k, v) == if i < s.len() && s[i].0 == k {
            s.take(i) + seq![(k, v)] + s.skip(i + 1)
        } else {
            s.take(i) + seq![(k, v)] + s.skip(i)
        },
    decreases i,
{
    if i == 0 {
        if s.len() > 0 {
            if s[0].0 != k {
                lemma_seq_less_total(k, s[0].0);
            }
        }
        assert(s.take(0) + seq![(k, v)] + s.skip(1) =~= seq![(k, v)] + s.drop_first());
        assert(s.take(0) + seq![(k, v)] + s.skip(0) =~= seq![(k, v)] + s);
        if s.len() == 0 {
            assert(s.take(0) + seq![(k, v)] + s.skip(0) =~= seq![(k, v)]);
        }
    } else {
        let t = s.drop_first();
        lemma_sorted_drop_first(s);
        assert(seq_less(s[0].0, k));
        lemma_seq_less_irreflexive(k);
        lemma_seq_less_asymmetric(s[0].0, k);
        assert forall|j: int| 0 <= j < i - 1 implies seq_less(#[trigger] t[j].0, k) by {
            assert(t[j] == s[j + 1]);
        }
        if i - 1 < t.len() {
            assert(t[i - 1] == s[i]);
        }
        lemma_insert_sorted_split(t, k, v, i - 1);
        if i < s.len() && s[i].0 == k {
            assert(seq![s[0]] + (t.take(i - 1) + seq![(k, v)] + t.skip(i)) =~= s.take(i) + seq![
                (k, v),
            ] + s.skip(i + 1));
        } else {
            assert(seq![s[0]] + (t.take(i - 1) + seq![(k, v)] + t.skip(i - 1)) =~= s.take(i)
                + seq![(k, v)] + s.skip(i));
        }
    }
}

/// Rebinding a key that is already bound keeps every key in its place.
pub proof fn lemma_insert_existing<V>(s: Seq<(Seq<char>, V)>, k: Seq<char>, v: V)
    requires
        sorted_by_key(s),
        lookup(s, k) is Some,
    ensures
        insert_sorted(s, k, v).len() == s.len(),
        forall|j: int| 0 <= j < s.len() ==> (#[trigger] insert_sorted(s, k, v)[j]).0 == s[j].0,
        keys_of(insert_sorted(s, k, v)) == keys_of(s),
{
    lemma_lookup_some_index(s, k);
    let i = choose|i: int| 0 <= i < s.len() && (#[trigger] s[i]).0 == k && lookup(s, k) == Some(s[i].1);
    lemma_seq_less_irreflexive(k);
    lemma_insert_sorted_split(s, k, v, i);
    let r = insert_sorted(s, k, v);
    assert(r =~= s.take(i) + seq![(k, v)] + s.skip(i + 1));
    assert forall|j: int| 0 <= j < s.len() implies (#[trigger] r[j]).0 == s[j].0 by {
        if j < i {
        } else if j == i {
        } else {
        }
    }
    assert(keys_of(r) =~= keys_of(s));
}

} // verus!
