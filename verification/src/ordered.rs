//! Maps and sets that remember an order, as sequences.
//!
//! A map is a sequence of pairs with distinct keys, a set a sequence of distinct
//! items. A new key goes last; removing one moves the last pair into its place.

use vstd::prelude::*;

verus! {

/// Whether some pair of `s` has the key `k`.
pub open spec fn has_key<K, M>(s: Seq<(K, M)>, k: K) -> bool {
    exists|i: int| 0 <= i < s.len() && (#[trigger] s[i]).0 == k
}

/// The position of a pair of `s` with the key `k`.
pub open spec fn position<K, M>(s: Seq<(K, M)>, k: K) -> int
    recommends
        has_key(s, k),
{
    choose|i: int| 0 <= i < s.len() && (#[trigger] s[i]).0 == k
}

/// The value of `k` in `s`.
pub open spec fn lookup<K, M>(s: Seq<(K, M)>, k: K) -> Option<M> {
    if has_key(s, k) {
        Some(s[position(s, k)].1)
    } else {
        None
    }
}

/// `s` with the value of `k` set to `m`: in place where `k` is there, else last.
pub open spec fn upsert<K, M>(s: Seq<(K, M)>, k: K, m: M) -> Seq<(K, M)> {
    if has_key(s, k) {
        s.update(position(s, k), (k, m))
    } else {
        s.push((k, m))
    }
}

/// `s` without its item at `i`, whose place the last item takes.
pub open spec fn swap_remove_at<A>(s: Seq<A>, i: int) -> Seq<A> {
    s.update(i, s.last()).drop_last()
}

/// `s` without the pair of `k`, whose place the last pair takes.
pub open spec fn swap_remove<K, M>(s: Seq<(K, M)>, k: K) -> Seq<(K, M)> {
    if has_key(s, k) {
        swap_remove_at(s, position(s, k))
    } else {
        s
    }
}

/// No key occurs twice in `s`.
pub open spec fn distinct_keys<K, M>(s: Seq<(K, M)>) -> bool {
    forall|i: int, j: int|
        0 <= i < s.len() && 0 <= j < s.len() && i != j ==> (#[trigger] s[i]).0 != (#[trigger] s[j]).0
}

/// The map that `s` holds, without its order.
pub open spec fn as_map<K, M>(s: Seq<(K, M)>) -> Map<K, M> {
    Map::new(|k: K| has_key(s, k), |k: K| s[position(s, k)].1)
}

/// `s` with `x` in it: unchanged where `x` is there, else with `x` last.
pub open spec fn set_insert<A>(s: Seq<A>, x: A) -> Seq<A> {
    if s.contains(x) {
        s
    } else {
        s.push(x)
    }
}

/// `s` without `x`, whose place the last item takes.
pub open spec fn set_swap_remove<A>(s: Seq<A>, x: A) -> Seq<A> {
    if s.contains(x) {
        swap_remove_at(s, s.index_of(x))
    } else {
        s
    }
}

/// The items of `s` in the order in which they first occur, each once.
pub open spec fn distinct<A>(s: Seq<A>) -> Seq<A>
    decreases s.len(),
{
    if s.len() == 0 {
        s
    } else {
        set_insert(distinct(s.drop_last()), s.last())
    }
}

/// Where keys are distinct, a pair's own position is the position of its key.
pub proof fn lemma_position<K, M>(s: Seq<(K, M)>, i: int)
    requires
        distinct_keys(s),
        0 <= i < s.len(),
    ensures
        has_key(s, s[i].0),
        position(s, s[i].0) == i,
        lookup(s, s[i].0) == Some(s[i].1),
{
    assert(has_key(s, s[i].0));
    let p = position(s, s[i].0);
    assert(s[p].0 == s[i].0);
}

/// What is found under a key, and what the map of a sequence holds, agree.
pub proof fn lemma_lookup_as_map<K, M>(s: Seq<(K, M)>, k: K)
    ensures
        as_map(s).contains_key(k) <==> has_key(s, k),
        has_key(s, k) ==> lookup(s, k) == Some(as_map(s)[k]),
        !has_key(s, k) ==> lookup(s, k) is None,
{
}

/// Setting a value keeps keys distinct and sets it in the map.
pub proof fn lemma_upsert<K, M>(s: Seq<(K, M)>, k: K, m: M)
    requires
        distinct_keys(s),
    ensures
        distinct_keys(upsert(s, k, m)),
        as_map(upsert(s, k, m)) == as_map(s).insert(k, m),
        lookup(upsert(s, k, m), k) == Some(m),
{
    let t = upsert(s, k, m);
    if has_key(s, k) {
        let p = position(s, k);
        assert(s[p].0 == k);
        assert(t[p] == (k, m));
    } else {
        assert(t[s.len() as int] == (k, m));
    }
    assert(distinct_keys(t));
    assert forall|x: K| has_key(t, x) <==> (has_key(s, x) || x == k) by {
        if has_key(s, x) {
            let q = position(s, x);
            assert(s[q].0 == x);
            assert(t[q].0 == x);
        }
        if x == k {
            if has_key(s, k) {
                assert(t[position(s, k)].0 == k);
            } else {
                assert(t[s.len() as int].0 == k);
            }
        }
        if has_key(t, x) {
            let q = position(t, x);
            assert(t[q].0 == x);
            if q < s.len() {
                assert(s[q].0 == x);
            }
        }
    }
    assert forall|x: K| has_key(t, x) implies t[position(t, x)].1 == (if x == k { m } else { s[position(s, x)].1 }) by {
        let q = position(t, x);
        assert(t[q].0 == x);
        if x == k {
            if has_key(s, k) {
                lemma_position(t, position(s, k));
            } else {
                lemma_position(t, s.len() as int);
            }
        } else {
            let p = position(s, x);
            assert(s[p].0 == x);
            lemma_position(t, p);
        }
    }
    assert(as_map(t) =~= as_map(s).insert(k, m));
    lemma_lookup_as_map(t, k);
}

/// Removing a key keeps keys distinct and removes it from the map.
pub proof fn lemma_swap_remove<K, M>(s: Seq<(K, M)>, k: K)
    requires
        distinct_keys(s),
    ensures
        distinct_keys(swap_remove(s, k)),
        as_map(swap_remove(s, k)) == as_map(s).remove(k),
        lookup(swap_remove(s, k), k) is None,
{
    let t = swap_remove(s, k);
    if has_key(s, k) {
        let p = position(s, k);
        assert(s[p].0 == k);
        let n = s.len() - 1;
        assert forall|i: int| 0 <= i < t.len() implies #[trigger] t[i] == (if i == p { s[n] } else { s[i] }) by {}
        assert(distinct_keys(t));
        assert forall|x: K| has_key(t, x) <==> (has_key(s, x) && x != k) by {
            if has_key(s, x) && x != k {
                let q = position(s, x);
                assert(s[q].0 == x);
                if q == n {
                    assert(t[p].0 == x);
                } else {
                    assert(t[q].0 == x);
                }
            }
            if has_key(t, x) {
                let q = position(t, x);
                assert(t[q].0 == x);
                if q == p {
                    assert(s[n].0 == x);
                } else {
                    assert(s[q].0 == x);
                }
            }
        }
        assert forall|x: K| has_key(t, x) implies t[position(t, x)].1 == s[position(s, x)].1 by {
            let q = position(t, x);
            assert(t[q].0 == x);
            if q == p {
                lemma_position(s, n);
            } else {
                lemma_position(s, q);
            }
        }
        assert(as_map(t) =~= as_map(s).remove(k));
    } else {
        assert(as_map(t) =~= as_map(s).remove(k));
    }
    lemma_lookup_as_map(t, k);
}

/// Setting the value of a key and then removing the key is removing it.
pub proof fn lemma_swap_remove_upsert<K, M>(s: Seq<(K, M)>, k: K, m: M)
    requires
        distinct_keys(s),
        has_key(s, k),
    ensures
        swap_remove(upsert(s, k, m), k) == swap_remove(s, k),
{
    let p = position(s, k);
    let t = upsert(s, k, m);
    assert(s[p].0 == k);
    assert(t[p].0 == k);
    lemma_upsert(s, k, m);
    lemma_position(t, p);
    assert(swap_remove(t, k) =~= swap_remove(s, k));
}

/// Setting a value that is there changes nothing.
pub proof fn lemma_upsert_same<K, M>(s: Seq<(K, M)>, k: K, m: M)
    requires
        lookup(s, k) == Some(m),
    ensures
        upsert(s, k, m) == s,
{
    let p = position(s, k);
    assert(s[p].0 == k);
    assert(upsert(s, k, m) =~= s);
}

/// Of two values that are set one after the other, the second stays.
pub proof fn lemma_upsert_twice<K, M>(s: Seq<(K, M)>, k: K, first: M, second: M)
    requires
        distinct_keys(s),
    ensures
        upsert(upsert(s, k, first), k, second) == upsert(s, k, second),
{
    let t = upsert(s, k, first);
    lemma_upsert(s, k, first);
    if has_key(s, k) {
        let p = position(s, k);
        assert(s[p].0 == k && t[p].0 == k);
        lemma_position(t, p);
    } else {
        assert(t[s.len() as int].0 == k);
        lemma_position(t, s.len() as int);
    }
    assert(upsert(t, k, second) =~= upsert(s, k, second));
}

/// Removing a key that was new takes back that it was set.
pub proof fn lemma_swap_remove_new<K, M>(s: Seq<(K, M)>, k: K, m: M)
    requires
        distinct_keys(s),
        !has_key(s, k),
    ensures
        swap_remove(upsert(s, k, m), k) == s,
{
    let t = upsert(s, k, m);
    lemma_upsert(s, k, m);
    assert(t[s.len() as int].0 == k);
    lemma_position(t, s.len() as int);
    assert(swap_remove(t, k) =~= s);
}

/// Taking out an item that was new takes back that it was put in.
pub proof fn lemma_set_swap_remove_new<A>(s: Seq<A>, x: A)
    requires
        !s.contains(x),
    ensures
        set_swap_remove(s.push(x), x) == s,
{
    let t = s.push(x);
    assert(t[s.len() as int] == x);
    assert(t.contains(x));
    let p = t.index_of(x);
    assert(t[p] == x);
    if p < s.len() {
        assert(s[p] == x);
    }
    assert(set_swap_remove(t, x) =~= s);
}

/// Putting an item in keeps items distinct, and adds that item alone.
pub proof fn lemma_set_insert<A>(s: Seq<A>, x: A)
    requires
        s.no_duplicates(),
    ensures
        set_insert(s, x).no_duplicates(),
        forall|y: A| #[trigger] set_insert(s, x).contains(y) <==> s.contains(y) || y == x,
{
    let t = set_insert(s, x);
    assert forall|y: A| #[trigger] t.contains(y) <==> s.contains(y) || y == x by {
        if s.contains(y) {
            let i = s.index_of(y);
            assert(t[i] == y);
        }
        if !s.contains(x) {
            assert(t[s.len() as int] == x);
        }
        if t.contains(y) {
            let i = t.index_of(y);
            assert(t[i] == y);
            if i < s.len() {
                assert(s[i] == y);
            }
        }
    }
}

/// Taking an item out keeps items distinct, and takes out that item alone.
pub proof fn lemma_set_swap_remove<A>(s: Seq<A>, x: A)
    requires
        s.no_duplicates(),
    ensures
        set_swap_remove(s, x).no_duplicates(),
        forall|y: A| #[trigger] set_swap_remove(s, x).contains(y) <==> s.contains(y) && y != x,
{
    let t = set_swap_remove(s, x);
    if s.contains(x) {
        let p = s.index_of(x);
        let n = s.len() - 1;
        assert(s[p] == x);
        assert forall|i: int| 0 <= i < t.len() implies #[trigger] t[i] == (if i == p { s[n] } else { s[i] }) by {}
        assert forall|y: A| #[trigger] t.contains(y) <==> s.contains(y) && y != x by {
            if s.contains(y) && y != x {
                let q = s.index_of(y);
                assert(s[q] == y);
                if q == n {
                    assert(t[p] == y);
                } else {
                    assert(t[q] == y);
                }
            }
            if t.contains(y) {
                let q = t.index_of(y);
                assert(t[q] == y);
                if q == p {
                    assert(s[n] == y);
                } else {
                    assert(s[q] == y);
                }
            }
        }
    }
}

/// Listing each item once keeps which items there are.
pub proof fn lemma_distinct<A>(s: Seq<A>)
    ensures
        distinct(s).no_duplicates(),
        forall|y: A| #[trigger] distinct(s).contains(y) <==> s.contains(y),
    decreases s.len(),
{
    if s.len() > 0 {
        let d = s.drop_last();
        lemma_distinct(d);
        lemma_set_insert(distinct(d), s.last());
        assert forall|y: A| #[trigger] distinct(s).contains(y) <==> s.contains(y) by {
            if d.contains(y) {
                let i = d.index_of(y);
                assert(s[i] == y);
            }
            if s.contains(y) {
                let i = s.index_of(y);
                assert(s[i] == y);
                if i < d.len() {
                    assert(d[i] == y);
                }
            }
            if y == s.last() {
                assert(s[s.len() - 1] == y);
            }
        }
    }
}

} // verus!
