//! Keyed sequences: inserting under a key that is already present replaces
//! its value in place; a new key goes at the end. The containers of an
//! archive and of a bank fill up this way as their entries are read.

use vstd::prelude::*;

verus! {

/// Some entry of `s` is under key `k`.
pub open spec fn has_key<K, V>(s: Seq<(K, V)>, k: K) -> bool {
    exists|i: int| 0 <= i < s.len() && s[i].0 == k
}

/// No key occurs twice.
pub open spec fn keys_unique<K, V>(s: Seq<(K, V)>) -> bool {
    forall|i: int, j: int| 0 <= i < s.len() && 0 <= j < s.len() && i != j ==> s[i].0 != s[j].0
}

/// Where key `k` stands (meaningful when `has_key(s, k)`).
pub open spec fn key_index<K, V>(s: Seq<(K, V)>, k: K) -> int {
    choose|i: int| 0 <= i < s.len() && s[i].0 == k
}

/// `s` after inserting `v` under `k`.
pub open spec fn upsert<K, V>(s: Seq<(K, V)>, k: K, v: V) -> Seq<(K, V)> {
    if has_key(s, k) {
        s.update(key_index(s, k), (k, v))
    } else {
        s.push((k, v))
    }
}

/// What inserting `items` one after the other into an empty container
/// leaves: each key once, where it was first inserted, with the value it
/// was last given.
pub open spec fn keyed<K, V>(items: Seq<(K, V)>) -> Seq<(K, V)>
    decreases items.len(),
{
    if items.len() == 0 {
        Seq::empty()
    } else {
        upsert(keyed(items.drop_last()), items.last().0, items.last().1)
    }
}

/// The value under `k`, or `default` when there is none.
pub open spec fn value_or<K, V>(s: Seq<(K, V)>, k: K, default: V) -> V {
    if has_key(s, k) {
        s[key_index(s, k)].1
    } else {
        default
    }
}

pub proof fn lemma_upsert_unique<K, V>(s: Seq<(K, V)>, k: K, v: V)
    requires
        keys_unique(s),
    ensures
        keys_unique(upsert(s, k, v)),
        has_key(upsert(s, k, v), k),
{
    if has_key(s, k) {
        let i = key_index(s, k);
        assert(upsert(s, k, v)[i].0 == k);
    } else {
        assert(upsert(s, k, v)[s.len() as int].0 == k);
    }
}

/// Under unique keys, the entry found by a scan is the one `key_index` names.
pub proof fn lemma_key_index_unique<K, V>(s: Seq<(K, V)>, k: K, i: int)
    requires
        keys_unique(s),
        0 <= i < s.len(),
        s[i].0 == k,
    ensures
        has_key(s, k),
        key_index(s, k) == i,
{
    assert(has_key(s, k));
    let j = key_index(s, k);
    assert(s[j].0 == k);
}

pub proof fn lemma_keyed_unique<K, V>(items: Seq<(K, V)>)
    ensures
        keys_unique(keyed(items)),
    decreases items.len(),
{
    if items.len() > 0 {
        lemma_keyed_unique(items.drop_last());
        lemma_upsert_unique(keyed(items.drop_last()), items.last().0, items.last().1);
    }
}


/// Mapping the values keeps the keys.
pub open spec fn map_vals<K, V, W>(s: Seq<(K, V)>, m: spec_fn(V) -> W) -> Seq<(K, W)> {
    s.map_values(|p: (K, V)| (p.0, m(p.1)))
}


/// Mapping the values keeps the keys unique.
pub proof fn lemma_map_vals_unique<K, V, W>(s: Seq<(K, V)>, m: spec_fn(V) -> W)
    requires
        keys_unique(s),
    ensures
        keys_unique(map_vals(s, m)),
{
    let t = map_vals(s, m);
    assert forall|a: int, b: int| 0 <= a < t.len() && 0 <= b < t.len() && a != b implies t[a].0 != t[b].0 by {
        assert(t[a].0 == s[a].0);
        assert(t[b].0 == s[b].0);
    }
}

/// Inserting and then mapping the values is mapping and then inserting
/// the mapped value.
pub proof fn lemma_upsert_map<K, V, W>(s: Seq<(K, V)>, k: K, v: V, m: spec_fn(V) -> W)
    requires
        keys_unique(s),
    ensures
        map_vals(upsert(s, k, v), m) == upsert(map_vals(s, m), k, m(v)),
        keys_unique(map_vals(s, m)),
{
    let t = map_vals(s, m);
    lemma_map_vals_unique(s, m);
    if has_key(s, k) {
        let i = key_index(s, k);
        assert(t[i].0 == k);
        assert(has_key(t, k));
        let j = key_index(t, k);
        assert(s[j].0 == t[j].0);
        assert(j == i);
        assert(map_vals(upsert(s, k, v), m) =~= upsert(t, k, m(v)));
    } else {
        assert(!has_key(t, k)) by {
            if has_key(t, k) {
                let j = key_index(t, k);
                assert(s[j].0 == t[j].0);
            }
        }
        assert(map_vals(upsert(s, k, v), m) =~= upsert(t, k, m(v)));
    }
}

/// The last value inserted under `k` among `items`, if any.
pub open spec fn last_value<K, V>(items: Seq<(K, V)>, k: K) -> Option<V>
    decreases items.len(),
{
    if items.len() == 0 {
        None
    } else if items.last().0 == k {
        Some(items.last().1)
    } else {
        last_value(items.drop_last(), k)
    }
}

/// Inserting a sequence of entries keeps each key once, and under each key
/// the value that was inserted last; a key never inserted is absent.
pub proof fn law_keyed_last_value_wins<K, V>(items: Seq<(K, V)>, k: K)
    ensures
        keys_unique(keyed(items)),
        has_key(keyed(items), k) <==> last_value(items, k) is Some,
        last_value(items, k) matches Some(v) ==> keyed(items)[key_index(keyed(items), k)].1 == v,
    decreases items.len(),
{
    lemma_keyed_unique(items);
    if items.len() > 0 {
        let prev = keyed(items.drop_last());
        law_keyed_last_value_wins(items.drop_last(), k);
        lemma_keyed_unique(items.drop_last());
        let (lk, lv) = items.last();
        let cur = keyed(items);
        assert(cur == upsert(prev, lk, lv));
        if lk == k {
            lemma_upsert_unique(prev, lk, lv);
            if has_key(prev, k) {
                let i = key_index(prev, k);
                assert(cur[i].0 == k);
                lemma_key_index_unique(cur, k, i);
            } else {
                assert(cur[prev.len() as int].0 == k);
                lemma_key_index_unique(cur, k, prev.len() as int);
            }
        } else {
            if has_key(prev, lk) {
                let i = key_index(prev, lk);
                if has_key(prev, k) {
                    let j = key_index(prev, k);
                    assert(j != i);
                    assert(cur[j] == prev[j]);
                    lemma_key_index_unique(cur, k, j);
                } else {
                    assert forall|x: int| 0 <= x < cur.len() implies cur[x].0 != k by {
                        if x != i {
                            assert(cur[x] == prev[x]);
                        }
                    }
                }
            } else {
                if has_key(prev, k) {
                    let j = key_index(prev, k);
                    assert(cur[j] == prev[j]);
                    lemma_key_index_unique(cur, k, j);
                } else {
                    assert forall|x: int| 0 <= x < cur.len() implies cur[x].0 != k by {
                        if x < prev.len() {
                            assert(cur[x] == prev[x]);
                        }
                    }
                }
            }
        }
    }
}

/// Mapping the values keeps which keys are present, and where.
pub proof fn lemma_has_key_map<K, V, W>(s: Seq<(K, V)>, m: spec_fn(V) -> W, k: K)
    ensures
        has_key(map_vals(s, m), k) == has_key(s, k),
        has_key(s, k) ==> map_vals(s, m)[key_index(s, k)].0 == k,
{
    let t = map_vals(s, m);
    if has_key(s, k) {
        let i = key_index(s, k);
        assert(t[i].0 == k);
    }
    if has_key(t, k) {
        let i = key_index(t, k);
        assert(s[i].0 == k);
    }
}

/// Inserts `v` under `k`.
pub fn upsert_u64<V>(acc: &mut Vec<(u64, V)>, k: u64, v: V)
    requires
        keys_unique(old(acc)@),
    ensures
        final(acc)@ == upsert(old(acc)@, k, v),
        keys_unique(final(acc)@),
{
    proof {
        lemma_upsert_unique(acc@, k, v);
    }
    let n = acc.len();
    let mut i: usize = 0;
    while i < n
        invariant
            i <= n,
            n == acc@.len(),
            acc@ == old(acc)@,
            keys_unique(acc@),
            forall|j: int| 0 <= j < i ==> acc@[j].0 != k,
        decreases n - i,
    {
        if acc[i].0 == k {
            proof {
                lemma_key_index_unique(acc@, k, i as int);
            }
            acc[i] = (k, v);
            return;
        }
        i = i + 1;
    }
    acc.push((k, v));
}

/// Inserts `v` under the 32-bit key `k`.
pub fn upsert_u32<V>(acc: &mut Vec<(u32, V)>, k: u32, v: V)
    requires
        keys_unique(old(acc)@),
    ensures
        final(acc)@ == upsert(old(acc)@, k, v),
        keys_unique(final(acc)@),
{
    proof {
        lemma_upsert_unique(acc@, k, v);
    }
    let n = acc.len();
    let mut i: usize = 0;
    while i < n
        invariant
            i <= n,
            n == acc@.len(),
            acc@ == old(acc)@,
            keys_unique(acc@),
            forall|j: int| 0 <= j < i ==> acc@[j].0 != k,
        decreases n - i,
    {
        if acc[i].0 == k {
            proof {
                lemma_key_index_unique(acc@, k, i as int);
            }
            acc[i] = (k, v);
            return;
        }
        i = i + 1;
    }
    acc.push((k, v));
}

/// `pool` after adding, in order, each entry of `own` whose key it lacks.
pub open spec fn add_absent<K, V>(pool: Seq<(K, V)>, own: Seq<(K, V)>) -> Seq<(K, V)>
    decreases own.len(),
{
    if own.len() == 0 {
        pool
    } else {
        let prev = add_absent(pool, own.drop_last());
        if has_key(prev, own.last().0) {
            prev
        } else {
            prev.push(own.last())
        }
    }
}

proof fn lemma_push_absent_unique<K, V>(s: Seq<(K, V)>, e: (K, V))
    requires
        keys_unique(s),
        !has_key(s, e.0),
    ensures
        keys_unique(s.push(e)),
{
    let t = s.push(e);
    assert forall|a: int, b: int| 0 <= a < t.len() && 0 <= b < t.len() && a != b implies t[a].0 != t[b].0 by {
        if a == s.len() {
            assert(s[b].0 != e.0);
        } else if b == s.len() {
            assert(s[a].0 != e.0);
        }
    }
}

/// Mapping the values commutes with adding the absent entries.
pub proof fn lemma_add_absent_map<K, V, W>(pool: Seq<(K, V)>, own: Seq<(K, V)>, m: spec_fn(V) -> W)
    ensures
        map_vals(add_absent(pool, own), m) == add_absent(map_vals(pool, m), map_vals(own, m)),
    decreases own.len(),
{
    if own.len() > 0 {
        lemma_add_absent_map(pool, own.drop_last(), m);
        let prev = add_absent(pool, own.drop_last());
        let mprev = map_vals(prev, m);
        assert(map_vals(own, m).drop_last() =~= map_vals(own.drop_last(), m));
        assert(has_key(prev, own.last().0) == has_key(mprev, own.last().0)) by {
            if has_key(prev, own.last().0) {
                let i = key_index(prev, own.last().0);
                assert(mprev[i].0 == own.last().0);
            }
            if has_key(mprev, own.last().0) {
                let i = key_index(mprev, own.last().0);
                assert(prev[i].0 == own.last().0);
            }
        }
        if !has_key(prev, own.last().0) {
            assert(map_vals(prev.push(own.last()), m) =~= mprev.push((own.last().0, m(own.last().1))));
        }
    }
}

/// Adding absent entries only appends: what the pool held stays, in place.
pub proof fn lemma_add_absent_prefix<K, V>(pool: Seq<(K, V)>, own: Seq<(K, V)>)
    ensures
        add_absent(pool, own).len() >= pool.len(),
        add_absent(pool, own).take(pool.len() as int) == pool,
    decreases own.len(),
{
    if own.len() > 0 {
        lemma_add_absent_prefix(pool, own.drop_last());
        let prev = add_absent(pool, own.drop_last());
        if !has_key(prev, own.last().0) {
            assert(prev.push(own.last()).take(pool.len() as int) =~= prev.take(pool.len() as int));
        }
    } else {
        assert(pool.take(pool.len() as int) =~= pool);
    }
}

/// Adding keeps every key the pool had and gains every key of `own`.
pub proof fn lemma_add_absent_has_key<K, V>(pool: Seq<(K, V)>, own: Seq<(K, V)>, k: K)
    requires
        has_key(pool, k) || has_key(own, k),
    ensures
        has_key(add_absent(pool, own), k),
    decreases own.len(),
{
    if own.len() > 0 {
        let prev = add_absent(pool, own.drop_last());
        if has_key(pool, k) || has_key(own.drop_last(), k) {
            lemma_add_absent_has_key(pool, own.drop_last(), k);
            let i = key_index(prev, k);
            if !has_key(prev, own.last().0) {
                assert(prev.push(own.last())[i].0 == k);
            }
        } else {
            let i = key_index(own, k);
            if i < own.len() - 1 {
                assert(own.drop_last()[i].0 == k);
            }
            assert(own.last().0 == k);
            if !has_key(prev, own.last().0) {
                assert(prev.push(own.last())[prev.len() as int].0 == k);
            }
        }
    }
}

/// Where key `k` stands in `v`, if anywhere.
pub fn find_u64<V>(v: &Vec<(u64, V)>, k: u64) -> (r: Option<usize>)
    requires
        keys_unique(v@),
    ensures
        match r {
            Some(i) => i < v@.len() && has_key(v@, k) && key_index(v@, k) == i,
            None => !has_key(v@, k),
        },
{
    let n = v.len();
    let mut i: usize = 0;
    while i < n
        invariant
            i <= n,
            n == v@.len(),
            keys_unique(v@),
            forall|j: int| 0 <= j < i ==> v@[j].0 != k,
        decreases n - i,
    {
        if v[i].0 == k {
            proof {
                lemma_key_index_unique(v@, k, i as int);
            }
            return Some(i);
        }
        i = i + 1;
    }
    proof {
        if has_key(v@, k) {
            let j = key_index(v@, k);
            assert(v@[j].0 == k);
        }
    }
    None
}

/// Where the 32-bit key `k` stands in `v`, if anywhere.
pub fn find_u32<V>(v: &Vec<(u32, V)>, k: u32) -> (r: Option<usize>)
    requires
        keys_unique(v@),
    ensures
        match r {
            Some(i) => i < v@.len() && has_key(v@, k) && key_index(v@, k) == i,
            None => !has_key(v@, k),
        },
{
    let n = v.len();
    let mut i: usize = 0;
    while i < n
        invariant
            i <= n,
            n == v@.len(),
            keys_unique(v@),
            forall|j: int| 0 <= j < i ==> v@[j].0 != k,
        decreases n - i,
    {
        if v[i].0 == k {
            proof {
                lemma_key_index_unique(v@, k, i as int);
            }
            return Some(i);
        }
        i = i + 1;
    }
    proof {
        if has_key(v@, k) {
            let j = key_index(v@, k);
            assert(v@[j].0 == k);
        }
    }
    None
}

/// Adds to `pool`, in order, each entry of `own` whose key it lacks.
pub fn add_absent_u64<V>(pool: &mut Vec<(u64, V)>, own: Vec<(u64, V)>)
    requires
        keys_unique(old(pool)@),
    ensures
        final(pool)@ == add_absent(old(pool)@, own@),
        keys_unique(final(pool)@),
{
    let ghost all = own@;
    let mut rest = own;
    let ghost mut k: int = 0;
    assert(pool@ == add_absent(old(pool)@, all.take(0))) by {
        assert(all.take(0) =~= Seq::<(u64, V)>::empty());
    }
    while rest.len() > 0
        invariant
            0 <= k <= all.len(),
            rest@ == all.skip(k),
            pool@ == add_absent(old(pool)@, all.take(k)),
            keys_unique(pool@),
        decreases rest@.len(),
    {
        let ghost before_rest = rest@;
        let e = rest.remove(0);
        assert(all.take(k + 1).drop_last() =~= all.take(k));
        assert(all[k] == e) by {
            assert(before_rest[0] == all.skip(k)[0]);
        }
        match find_u64(pool, e.0) {
            Some(_) => {},
            None => {
                proof {
                    lemma_push_absent_unique(pool@, e);
                }
                pool.push(e);
            },
        }
        proof {
            k = k + 1;
        }
        assert(all.skip(k) =~= before_rest.drop_first());
    }
    assert(all.take(k) =~= all);
}

/// Adds to `pool`, in order, each entry of `own` whose 32-bit key it lacks.
pub fn add_absent_u32<V>(pool: &mut Vec<(u32, V)>, own: Vec<(u32, V)>)
    requires
        keys_unique(old(pool)@),
    ensures
        final(pool)@ == add_absent(old(pool)@, own@),
        keys_unique(final(pool)@),
{
    let ghost all = own@;
    let mut rest = own;
    let ghost mut k: int = 0;
    assert(pool@ == add_absent(old(pool)@, all.take(0))) by {
        assert(all.take(0) =~= Seq::<(u32, V)>::empty());
    }
    while rest.len() > 0
        invariant
            0 <= k <= all.len(),
            rest@ == all.skip(k),
            pool@ == add_absent(old(pool)@, all.take(k)),
            keys_unique(pool@),
        decreases rest@.len(),
    {
        let ghost before_rest = rest@;
        let e = rest.remove(0);
        assert(all.take(k + 1).drop_last() =~= all.take(k));
        assert(all[k] == e) by {
            assert(before_rest[0] == all.skip(k)[0]);
        }
        match find_u32(pool, e.0) {
            Some(_) => {},
            None => {
                proof {
                    lemma_push_absent_unique(pool@, e);
                }
                pool.push(e);
            },
        }
        proof {
            k = k + 1;
        }
        assert(all.skip(k) =~= before_rest.drop_first());
    }
    assert(all.take(k) =~= all);
}

} // verus!
