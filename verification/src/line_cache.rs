//! Least-recently-used caches of per-line shaping and layout results, kept for the
//! visible lines only. A cached result stands here by the handle it is kept under.
//!
//! A cache is seen as its entries, most recently used first, and the number of
//! entries it holds at most.

use vstd::prelude::*;
use lru::LruCache;

verus! {

#[verifier::external_type_specification]
#[verifier::external_body]
#[verifier::reject_recursive_types(K)]
#[verifier::reject_recursive_types(V)]
#[verifier::reject_recursive_types(S)]
pub struct ExLruCache<K, V, S>(LruCache<K, V, S>);

#[verifier::external_type_specification]
#[verifier::external_body]
pub struct ExDefaultHasher(lru::DefaultHasher);

/// The entries of a cache, most recently used first.
pub uninterp spec fn lru_entries(c: LruCache<usize, u64>) -> Seq<(usize, u64)>;

/// The number of entries a cache holds at most.
pub uninterp spec fn lru_cap(c: LruCache<usize, u64>) -> nat;

/// No key occurs twice.
pub open spec fn distinct_keys(s: Seq<(usize, u64)>) -> bool {
    forall|i: int, j: int| 0 <= i < j < s.len() ==> (#[trigger] s[i]).0 != (#[trigger] s[j]).0
}

/// What every cache keeps: each key once, and no more entries than it holds.
pub open spec fn lru_wf(c: LruCache<usize, u64>) -> bool {
    &&& distinct_keys(lru_entries(c))
    &&& lru_entries(c).len() <= lru_cap(c)
    &&& lru_cap(c) > 0
}

/// Where a key stands among the entries, -1 where it is absent.
pub open spec fn key_pos(s: Seq<(usize, u64)>, k: usize) -> int
    decreases s.len(),
{
    if s.len() == 0 {
        -1
    } else if s[0].0 == k {
        0
    } else {
        let p = key_pos(s.drop_first(), k);
        if p < 0 {
            -1
        } else {
            p + 1
        }
    }
}

/// The entries after putting `v` under `k`: the entry goes first, replacing the key's
/// old entry, or else the least recently used entry where the cache is full.
pub open spec fn put_entry(s: Seq<(usize, u64)>, cap: nat, k: usize, v: u64) -> Seq<(usize, u64)> {
    let p = key_pos(s, k);
    if p >= 0 {
        seq![(k, v)] + s.remove(p)
    } else if s.len() == cap {
        seq![(k, v)] + s.drop_last()
    } else {
        seq![(k, v)] + s
    }
}

/// `LruCache::new`: an empty cache that holds at most `cap` entries. `cap` is
/// nonzero, as the crate's `NonZeroUsize` parameter asks.
#[verifier::external_body]
fn lru_new(cap: usize) -> (c: LruCache<usize, u64>)
    requires
        cap > 0,
    ensures
        lru_entries(c) == Seq::<(usize, u64)>::empty(),
        lru_cap(c) == cap,
{
    LruCache::new(core::num::NonZeroUsize::new(cap).unwrap())
}

/// `LruCache::put`: the entry goes to the front of the list, replacing the key's old
/// entry; a new key in a full cache first detaches the entry at the back.
#[verifier::external_body]
fn lru_put(c: &mut LruCache<usize, u64>, k: usize, v: u64)
    requires
        lru_wf(*old(c)),
    ensures
        lru_entries(*final(c)) == put_entry(lru_entries(*old(c)), lru_cap(*old(c)), k, v),
        lru_cap(*final(c)) == lru_cap(*old(c)),
{
    c.put(k, v);
}

/// `LruCache::get`: the key's value, its entry moved to the front of the list.
#[verifier::external_body]
fn lru_get(c: &mut LruCache<usize, u64>, k: usize) -> (r: Option<&u64>)
    requires
        lru_wf(*old(c)),
    ensures
        key_pos(lru_entries(*old(c)), k) >= 0 ==> {
            let p = key_pos(lru_entries(*old(c)), k);
            &&& r == Some(&lru_entries(*old(c))[p].1)
            &&& lru_entries(*final(c)) == seq![lru_entries(*old(c))[p]] + lru_entries(*old(c)).remove(p)
        },
        key_pos(lru_entries(*old(c)), k) < 0 ==> r is None && lru_entries(*final(c)) == lru_entries(*old(c)),
        lru_cap(*final(c)) == lru_cap(*old(c)),
{
    c.get(&k)
}

/// `LruCache::get_mut`: the key's value to change in place, its entry moved to the
/// front of the list.
#[verifier::external_body]
fn lru_get_mut(c: &mut LruCache<usize, u64>, k: usize) -> (r: Option<&mut u64>)
    requires
        lru_wf(*old(c)),
    ensures
        key_pos(lru_entries(*old(c)), k) >= 0 ==> {
            let p = key_pos(lru_entries(*old(c)), k);
            &&& r matches Some(m) && *m == lru_entries(*old(c))[p].1
            &&& lru_entries(*final(c)) == seq![(k, *final(r->0))] + lru_entries(*old(c)).remove(p)
        },
        key_pos(lru_entries(*old(c)), k) < 0 ==> r is None && lru_entries(*final(c)) == lru_entries(*old(c)),
        lru_cap(*final(c)) == lru_cap(*old(c)),
{
    c.get_mut(&k)
}

/// `LruCache::contains`: whether the key has an entry; the order is left as it is.
#[verifier::external_body]
fn lru_contains(c: &LruCache<usize, u64>, k: usize) -> (r: bool)
    ensures
        r == (key_pos(lru_entries(*c), k) >= 0),
{
    c.contains(&k)
}

/// `LruCache::pop`: removes the key's entry and hands its value back.
#[verifier::external_body]
fn lru_pop(c: &mut LruCache<usize, u64>, k: usize) -> (r: Option<u64>)
    requires
        lru_wf(*old(c)),
    ensures
        key_pos(lru_entries(*old(c)), k) >= 0 ==> {
            let p = key_pos(lru_entries(*old(c)), k);
            &&& r == Some(lru_entries(*old(c))[p].1)
            &&& lru_entries(*final(c)) == lru_entries(*old(c)).remove(p)
        },
        key_pos(lru_entries(*old(c)), k) < 0 ==> r is None && lru_entries(*final(c)) == lru_entries(*old(c)),
        lru_cap(*final(c)) == lru_cap(*old(c)),
{
    c.pop(&k)
}

/// `LruCache::clear`: every entry goes.
#[verifier::external_body]
fn lru_clear(c: &mut LruCache<usize, u64>)
    ensures
        lru_entries(*final(c)) == Seq::<(usize, u64)>::empty(),
        lru_cap(*final(c)) == lru_cap(*old(c)),
{
    c.clear();
}

/// `LruCache::len`: the number of entries.
#[verifier::external_body]
fn lru_len(c: &LruCache<usize, u64>) -> (n: usize)
    ensures
        n == lru_entries(*c).len(),
{
    c.len()
}

/// `LruCache::is_empty`: whether there is no entry.
#[verifier::external_body]
fn lru_is_empty(c: &LruCache<usize, u64>) -> (r: bool)
    ensures
        r == (lru_entries(*c).len() == 0),
{
    c.is_empty()
}

/// `LruCache::iter`: the entries, most recently used first, copied out.
#[verifier::external_body]
fn lru_iter(c: &LruCache<usize, u64>) -> (v: Vec<(usize, u64)>)
    ensures
        v@ == lru_entries(*c),
{
    c.iter().map(|(k, v)| (*k, *v)).collect()
}

/// `LruCache::resize`: the entries at the back past the new size are detached.
#[verifier::external_body]
fn lru_resize(c: &mut LruCache<usize, u64>, cap: usize)
    requires
        cap > 0,
        lru_wf(*old(c)),
    ensures
        lru_entries(*final(c)) == if lru_entries(*old(c)).len() > cap {
            lru_entries(*old(c)).take(cap as int)
        } else {
            lru_entries(*old(c))
        },
        lru_cap(*final(c)) == cap,
{
    c.resize(core::num::NonZeroUsize::new(cap).unwrap());
}

/// The entries whose key is below `start`, in order.
pub open spec fn below(s: Seq<(usize, u64)>, start: usize) -> Seq<(usize, u64)>
    decreases s.len(),
{
    if s.len() == 0 {
        s
    } else if s[0].0 < start {
        seq![s[0]] + below(s.drop_first(), start)
    } else {
        below(s.drop_first(), start)
    }
}

/// The entries whose key is not among `ks`, in order.
pub open spec fn without_keys(s: Seq<(usize, u64)>, ks: Seq<usize>) -> Seq<(usize, u64)>
    decreases s.len(),
{
    if s.len() == 0 {
        s
    } else if ks.contains(s[0].0) {
        without_keys(s.drop_first(), ks)
    } else {
        seq![s[0]] + without_keys(s.drop_first(), ks)
    }
}

/// Where a line moves when `delta` lines are inserted (or removed, where negative)
/// at `start`: lines before `start` stay, the others move by `delta`, and a line
/// that would move out of range is dropped.
pub open spec fn shifted_key(k: usize, start: usize, delta: isize) -> Option<usize> {
    if k < start {
        Some(k)
    } else if 0 <= k + delta <= usize::MAX {
        Some((k + delta) as usize)
    } else {
        None
    }
}

/// Putting the entries back one after the other, each under its shifted key.
pub open spec fn put_shifted(s: Seq<(usize, u64)>, acc: Seq<(usize, u64)>, cap: nat, start: usize, delta: isize) -> Seq<(usize, u64)>
    decreases s.len(),
{
    if s.len() == 0 {
        acc
    } else {
        let next = match shifted_key(s[0].0, start, delta) {
            Some(nk) => put_entry(acc, cap, nk, s[0].1),
            None => acc,
        };
        put_shifted(s.drop_first(), next, cap, start, delta)
    }
}

/// The entries as a map from key to value.
pub open spec fn entry_map(s: Seq<(usize, u64)>) -> Map<usize, u64> {
    Map::new(|k: usize| key_pos(s, k) >= 0, |k: usize| s[key_pos(s, k)].1)
}

/// Where a key stands, and that it stands nowhere before.
proof fn lemma_key_pos(s: Seq<(usize, u64)>, k: usize)
    ensures
        -1 <= key_pos(s, k) < s.len(),
        key_pos(s, k) >= 0 ==> s[key_pos(s, k)].0 == k,
        forall|j: int| 0 <= j < s.len() && (j < key_pos(s, k) || key_pos(s, k) < 0) ==> (#[trigger] s[j]).0 != k,
    decreases s.len(),
{
    if s.len() > 0 {
        let r = s.drop_first();
        lemma_key_pos(r, k);
        assert forall|j: int| 0 <= j < s.len() && (j < key_pos(s, k) || key_pos(s, k) < 0) implies (#[trigger] s[j]).0 != k by {
            if j > 0 {
                assert(s[j] == r[j - 1]);
            }
        }
    }
}

/// In entries with distinct keys, the entry at `i` is where its key stands.
proof fn lemma_key_pos_at(s: Seq<(usize, u64)>, i: int)
    requires
        distinct_keys(s),
        0 <= i < s.len(),
    ensures
        key_pos(s, s[i].0) == i,
{
    lemma_key_pos(s, s[i].0);
    let p = key_pos(s, s[i].0);
    if p < 0 {
        assert(s[i].0 != s[i].0);
    } else if p != i {
        if p < i {
            assert(s[p].0 != s[i].0);
        } else {
            assert(s[i].0 != s[i].0);
        }
    }
}

/// Removing an entry keeps the keys distinct.
proof fn lemma_remove_distinct(s: Seq<(usize, u64)>, p: int)
    requires
        distinct_keys(s),
        0 <= p < s.len(),
    ensures
        distinct_keys(s.remove(p)),
{
    let r = s.remove(p);
    assert forall|i: int, j: int| 0 <= i < j < r.len() implies (#[trigger] r[i]).0 != (#[trigger] r[j]).0 by {
        let a = if i < p { i } else { i + 1 };
        let b = if j < p { j } else { j + 1 };
        assert(r[i] == s[a] && r[j] == s[b]);
    }
}

/// A put keeps the keys distinct and within the limit.
proof fn lemma_put_wf(s: Seq<(usize, u64)>, cap: nat, k: usize, v: u64)
    requires
        distinct_keys(s),
        s.len() <= cap,
        cap > 0,
    ensures
        distinct_keys(put_entry(s, cap, k, v)),
        put_entry(s, cap, k, v).len() <= cap,
{
    lemma_key_pos(s, k);
    let p = key_pos(s, k);
    let t = if p >= 0 {
        s.remove(p)
    } else if s.len() == cap {
        s.drop_last()
    } else {
        s
    };
    if p >= 0 {
        lemma_remove_distinct(s, p);
    } else if s.len() == cap {
        assert(s.drop_last() =~= s.remove(s.len() - 1));
        lemma_remove_distinct(s, s.len() - 1);
    }
    assert forall|j: int| 0 <= j < t.len() implies (#[trigger] t[j]).0 != k by {
        if p >= 0 {
            let b = if j < p { j } else { j + 1 };
            assert(t[j] == s[b]);
            if b == p {
            } else {
                assert(s[b].0 != s[p].0);
            }
        } else {
            assert(t[j] == s[j]);
        }
    }
    let r = seq![(k, v)] + t;
    assert forall|i: int, j: int| 0 <= i < j < r.len() implies (#[trigger] r[i]).0 != (#[trigger] r[j]).0 by {
        assert(r[j] == t[j - 1]);
        if i > 0 {
            assert(r[i] == t[i - 1]);
        }
    }
}

/// Removing a key from entries with distinct keys removes exactly its entry.
proof fn lemma_remove_is_without(s: Seq<(usize, u64)>, ks: Seq<usize>, k: usize)
    requires
        distinct_keys(without_keys(s, ks)),
    ensures
        key_pos(without_keys(s, ks), k) >= 0 ==> without_keys(s, ks).remove(key_pos(without_keys(s, ks), k))
            == without_keys(s, ks.push(k)),
        key_pos(without_keys(s, ks), k) < 0 ==> without_keys(s, ks) == without_keys(s, ks.push(k)),
    decreases s.len(),
{
    let w = without_keys(s, ks);
    lemma_key_pos(w, k);
    if s.len() > 0 {
        let r = s.drop_first();
        assert(ks.push(k).contains(s[0].0) == (ks.contains(s[0].0) || s[0].0 == k)) by {
            if ks.push(k).contains(s[0].0) {
                let i = choose|i: int| 0 <= i < ks.push(k).len() && ks.push(k)[i] == s[0].0;
                if i < ks.len() {
                    assert(ks[i] == s[0].0);
                }
            }
            if ks.contains(s[0].0) {
                let i = choose|i: int| 0 <= i < ks.len() && ks[i] == s[0].0;
                assert(ks.push(k)[i] == s[0].0);
            }
            if s[0].0 == k {
                assert(ks.push(k)[ks.len() as int] == k);
            }
        }
        if ks.contains(s[0].0) {
            lemma_remove_is_without(r, ks, k);
        } else {
            let wr = without_keys(r, ks);
            assert(w == seq![s[0]] + wr);
            assert(distinct_keys(wr)) by {
                assert forall|i: int, j: int| 0 <= i < j < wr.len() implies (#[trigger] wr[i]).0 != (#[trigger] wr[j]).0 by {
                    assert(wr[i] == w[i + 1] && wr[j] == w[j + 1]);
                }
            }
            lemma_remove_is_without(r, ks, k);
            assert(w.drop_first() =~= wr);
            if s[0].0 == k {
                assert(key_pos(w, k) == 0);
                lemma_key_pos(wr, k);
                if key_pos(wr, k) >= 0 {
                    let q = key_pos(wr, k);
                    assert(w[q + 1] == wr[q]);
                    assert(w[0].0 != w[q + 1].0);
                }
                assert(w.remove(0) =~= wr);
            } else {
                assert(key_pos(w, k) == (if key_pos(wr, k) < 0 { -1 } else { key_pos(wr, k) + 1 }));
                if key_pos(wr, k) >= 0 {
                    assert(w.remove(key_pos(w, k)) =~= seq![s[0]] + wr.remove(key_pos(wr, k)));
                }
            }
        }
    } else {
        assert(without_keys(s, ks.push(k)) == s);
    }
}

/// Taking out the keys at or after `start` leaves the entries below it.
proof fn lemma_without_is_below(s: Seq<(usize, u64)>, ks: Seq<usize>, start: usize)
    requires
        forall|i: int| 0 <= i < s.len() ==> (ks.contains((#[trigger] s[i]).0) <==> s[i].0 >= start),
    ensures
        without_keys(s, ks) == below(s, start),
    decreases s.len(),
{
    if s.len() > 0 {
        let r = s.drop_first();
        assert forall|i: int| 0 <= i < r.len() implies (ks.contains((#[trigger] r[i]).0) <==> r[i].0 >= start) by {
            assert(r[i] == s[i + 1]);
        }
        assert(ks.contains(s[0].0) <==> s[0].0 >= start);
        lemma_without_is_below(r, ks, start);
    }
}

/// Entries below a key keep the keys distinct and the order.
proof fn lemma_below_distinct(s: Seq<(usize, u64)>, start: usize)
    requires
        distinct_keys(s),
    ensures
        distinct_keys(below(s, start)),
        below(s, start).len() <= s.len(),
        forall|i: int| 0 <= i < below(s, start).len() ==> s.contains(#[trigger] below(s, start)[i]),
    decreases s.len(),
{
    if s.len() > 0 {
        let r = s.drop_first();
        assert(distinct_keys(r)) by {
            assert forall|i: int, j: int| 0 <= i < j < r.len() implies (#[trigger] r[i]).0 != (#[trigger] r[j]).0 by {
                assert(r[i] == s[i + 1] && r[j] == s[j + 1]);
            }
        }
        lemma_below_distinct(r, start);
        let b = below(r, start);
        assert forall|i: int| 0 <= i < b.len() implies s.contains(#[trigger] b[i]) by {
            let j = choose|j: int| 0 <= j < r.len() && r[j] == b[i];
            assert(s[j + 1] == r[j]);
        }
        if s[0].0 < start {
            let t = seq![s[0]] + b;
            assert forall|i: int| 0 <= i < t.len() implies s.contains(#[trigger] t[i]) by {
                if i == 0 {
                    assert(s[0] == t[0]);
                } else {
                    assert(t[i] == b[i - 1]);
                }
            }
            assert forall|i: int, j: int| 0 <= i < j < t.len() implies (#[trigger] t[i]).0 != (#[trigger] t[j]).0 by {
                assert(t[j] == b[j - 1]);
                if i == 0 {
                    let m = choose|m: int| 0 <= m < r.len() && r[m] == b[j - 1];
                    assert(s[m + 1] == r[m]);
                } else {
                    assert(t[i] == b[i - 1]);
                }
            }
        }
    }
}

/// Drops the entries whose key is at or after `start`.
fn invalidate_entries_from(cache: &mut LruCache<usize, u64>, start_line: usize)
    requires
        lru_wf(*old(cache)),
    ensures
        lru_wf(*final(cache)),
        lru_entries(*final(cache)) == below(lru_entries(*old(cache)), start_line),
        lru_cap(*final(cache)) == lru_cap(*old(cache)),
{
    let ghost s = lru_entries(*cache);
    let entries = lru_iter(cache);
    let mut to_remove: Vec<usize> = Vec::new();
    let mut i: usize = 0;
    while i < entries.len()
        invariant
            i <= entries@.len(),
            entries@ == s,
            forall|j: int| 0 <= j < i ==> (to_remove@.contains((#[trigger] s[j]).0) <==> s[j].0 >= start_line),
            forall|m: int| 0 <= m < to_remove@.len() ==> (#[trigger] to_remove@[m]) >= start_line,
            distinct_keys(s),
        decreases entries@.len() - i,
    {
        let ghost before = to_remove@;
        if entries[i].0 >= start_line {
            to_remove.push(entries[i].0);
        }
        proof {
            assert forall|j: int| 0 <= j <= i implies (to_remove@.contains((#[trigger] s[j]).0) <==> s[j].0 >= start_line) by {
                if j < i {
                    if before.contains(s[j].0) {
                        let m = choose|m: int| 0 <= m < before.len() && before[m] == s[j].0;
                        assert(to_remove@[m] == s[j].0);
                    }
                    if to_remove@.contains(s[j].0) && !before.contains(s[j].0) {
                        let m = choose|m: int| 0 <= m < to_remove@.len() && to_remove@[m] == s[j].0;
                        if m < before.len() {
                            assert(before[m] == s[j].0);
                        } else {
                            assert(s[j].0 == s[i as int].0);
                        }
                    }
                } else {
                    if s[i as int].0 >= start_line {
                        assert(to_remove@[to_remove@.len() - 1] == s[i as int].0);
                    } else {
                        assert(to_remove@ == before);
                        if before.contains(s[i as int].0) {
                            let m = choose|m: int| 0 <= m < before.len() && before[m] == s[i as int].0;
                            assert(before[m] >= start_line);
                        }
                    }
                }
            }
        }
        i = i + 1;
    }
    let mut k: usize = 0;
    proof {
        assert(without_keys(s, to_remove@.take(0)) == s) by {
            lemma_without_empty(s, to_remove@.take(0));
        }
    }
    while k < to_remove.len()
        invariant
            k <= to_remove@.len(),
            lru_wf(*cache),
            lru_cap(*cache) == lru_cap(*old(cache)),
            lru_entries(*cache) == without_keys(s, to_remove@.take(k as int)),
        decreases to_remove@.len() - k,
    {
        let key = to_remove[k];
        proof {
            lemma_remove_is_without(s, to_remove@.take(k as int), key);
            assert(to_remove@.take(k as int).push(key) =~= to_remove@.take(k + 1));
            lemma_key_pos(lru_entries(*cache), key);
            if key_pos(lru_entries(*cache), key) >= 0 {
                lemma_remove_distinct(lru_entries(*cache), key_pos(lru_entries(*cache), key));
            }
        }
        lru_pop(cache, key);
        k = k + 1;
    }
    proof {
        assert(to_remove@.take(k as int) =~= to_remove@);
        lemma_without_is_below(s, to_remove@, start_line);
    }
}

/// Taking out no key keeps every entry.
proof fn lemma_without_empty(s: Seq<(usize, u64)>, ks: Seq<usize>)
    requires
        ks.len() == 0,
    ensures
        without_keys(s, ks) == s,
    decreases s.len(),
{
    if s.len() > 0 {
        lemma_without_empty(s.drop_first(), ks);
        assert(seq![s[0]] + s.drop_first() =~= s);
    }
}

/// Moves the entries at or after line `start` by `delta` lines.
fn shift_entries(cache: &mut LruCache<usize, u64>, start: usize, delta: isize)
    requires
        lru_wf(*old(cache)),
        delta == isize::MIN ==> forall|i: int| 0 <= i < lru_entries(*old(cache)).len() ==> (#[trigger] lru_entries(*old(cache))[i]).0 < start,
    ensures
        lru_wf(*final(cache)),
        lru_cap(*final(cache)) == lru_cap(*old(cache)),
        lru_entries(*final(cache)) == if delta == 0 {
            lru_entries(*old(cache))
        } else {
            put_shifted(lru_entries(*old(cache)), Seq::empty(), lru_cap(*old(cache)), start, delta)
        },
{
    if delta == 0 {
        return;
    }
    let ghost s = lru_entries(*cache);
    let ghost cap = lru_cap(*cache);
    let entries = lru_iter(cache);
    lru_clear(cache);
    let mut i: usize = 0;
    proof {
        assert(entries@.skip(0) =~= s);
    }
    while i < entries.len()
        invariant
            i <= entries@.len(),
            entries@ == s,
            s.len() <= cap,
            cap == lru_cap(*cache),
            cap > 0,
            delta != 0,
            delta == isize::MIN ==> forall|j: int| 0 <= j < s.len() ==> (#[trigger] s[j]).0 < start,
            distinct_keys(lru_entries(*cache)),
            lru_entries(*cache).len() <= cap,
            put_shifted(entries@.skip(i as int), lru_entries(*cache), cap, start, delta) == put_shifted(s, Seq::empty(), cap, start, delta),
        decreases entries@.len() - i,
    {
        let (idx, value) = entries[i];
        proof {
            assert(entries@.skip(i as int)[0] == entries@[i as int]);
            assert(entries@.skip(i as int).drop_first() =~= entries@.skip(i + 1));
        }
        if idx >= start {
            let new_idx = if delta > 0 {
                idx.checked_add(delta as usize)
            } else {
                idx.checked_sub((-delta) as usize)
            };
            match new_idx {
                Some(n) => {
                    proof {
                        lemma_put_wf(lru_entries(*cache), cap, n, value);
                    }
                    lru_put(cache, n, value);
                },
                None => {},
            }
        } else {
            proof {
                lemma_put_wf(lru_entries(*cache), cap, idx, value);
            }
            lru_put(cache, idx, value);
        }
        i = i + 1;
    }
    proof {
        assert(entries@.skip(i as int).len() == 0);
    }
}

/// A line put into a cache is then its most recently used line, with the value put.
pub proof fn lemma_insert_then_get(s: Seq<(usize, u64)>, cap: nat, k: usize, v: u64)
    ensures
        key_pos(put_entry(s, cap, k, v), k) == 0,
        put_entry(s, cap, k, v)[0] == (k, v),
        entry_map(put_entry(s, cap, k, v)).contains_key(k),
        entry_map(put_entry(s, cap, k, v))[k] == v,
{
}

/// The lines after inserting `delta` lines at `start`: those before `start` keep
/// their index, the others move up by `delta`.
pub open spec fn shifted_up(m: Map<usize, u64>, start: usize, delta: isize) -> Map<usize, u64> {
    Map::new(
        |k: usize| (k < start && m.contains_key(k)) || (k >= start + delta && m.contains_key((k - delta) as usize)),
        |k: usize| if k < start { m[k] } else { m[(k - delta) as usize] },
    )
}

/// The shifted entries as a map.
pub open spec fn shift_map(s: Seq<(usize, u64)>, start: usize, delta: isize) -> Map<usize, u64>
    decreases s.len(),
{
    if s.len() == 0 {
        Map::empty()
    } else {
        let m = shift_map(s.drop_first(), start, delta);
        match shifted_key(s[0].0, start, delta) {
            Some(nk) => m.insert(nk, s[0].1),
            None => m,
        }
    }
}

/// Entries in front of others: the map gains the first entry.
proof fn lemma_entry_map_cons(e: (usize, u64), t: Seq<(usize, u64)>)
    ensures
        entry_map(seq![e] + t) == entry_map(t).insert(e.0, e.1),
{
    let s = seq![e] + t;
    assert(s.drop_first() =~= t);
    assert(s[0] == e);
    assert forall|k: usize| k != e.0 && key_pos(t, k) >= 0 implies s[key_pos(s, k)] == t[key_pos(t, k)] by {
        lemma_key_pos(t, k);
        assert(key_pos(s, k) == key_pos(t, k) + 1);
        assert(s[key_pos(t, k) + 1] == t[key_pos(t, k)]);
    }
    assert(entry_map(seq![e] + t) =~= entry_map(t).insert(e.0, e.1));
}

/// Moving up keeps distinct lines apart.
proof fn lemma_shifted_key_injective(a: usize, b: usize, start: usize, delta: isize)
    requires
        delta > 0,
        a != b,
    ensures
        shifted_key(a, start, delta) is Some && shifted_key(b, start, delta) is Some ==> shifted_key(a, start, delta)
            != shifted_key(b, start, delta),
{
}

/// The keys that shifted entries land on.
proof fn lemma_shift_map_keys(s: Seq<(usize, u64)>, start: usize, delta: isize, nk: usize)
    ensures
        shift_map(s, start, delta).contains_key(nk) <==> exists|i: int| 0 <= i < s.len() && shifted_key((#[trigger] s[i]).0, start, delta) == Some(nk),
    decreases s.len(),
{
    if s.len() > 0 {
        let r = s.drop_first();
        lemma_shift_map_keys(r, start, delta, nk);
        if exists|i: int| 0 <= i < s.len() && shifted_key((#[trigger] s[i]).0, start, delta) == Some(nk) {
            let i = choose|i: int| 0 <= i < s.len() && shifted_key((#[trigger] s[i]).0, start, delta) == Some(nk);
            if i > 0 {
                assert(r[i - 1] == s[i]);
            }
        }
        if exists|i: int| 0 <= i < r.len() && shifted_key((#[trigger] r[i]).0, start, delta) == Some(nk) {
            let i = choose|i: int| 0 <= i < r.len() && shifted_key((#[trigger] r[i]).0, start, delta) == Some(nk);
            assert(s[i + 1] == r[i]);
        }
    }
}

/// Putting back entries whose shifted keys are new, into a cache with room for all,
/// adds them to what it held.
proof fn lemma_put_shifted_union(s: Seq<(usize, u64)>, acc: Seq<(usize, u64)>, cap: nat, start: usize, delta: isize)
    requires
        delta > 0,
        distinct_keys(s),
        distinct_keys(acc),
        acc.len() + s.len() <= cap,
        forall|i: int, j: int| 0 <= i < s.len() && 0 <= j < acc.len() ==> shifted_key((#[trigger] s[i]).0, start, delta) != Some(
            (#[trigger] acc[j]).0,
        ),
    ensures
        entry_map(put_shifted(s, acc, cap, start, delta)) == entry_map(acc).union_prefer_right(shift_map(s, start, delta)),
    decreases s.len(),
{
    if s.len() == 0 {
        assert(entry_map(acc).union_prefer_right(Map::empty()) =~= entry_map(acc));
    } else {
        let r = s.drop_first();
        assert(distinct_keys(r)) by {
            assert forall|i: int, j: int| 0 <= i < j < r.len() implies (#[trigger] r[i]).0 != (#[trigger] r[j]).0 by {
                assert(r[i] == s[i + 1] && r[j] == s[j + 1]);
            }
        }
        match shifted_key(s[0].0, start, delta) {
            Some(nk) => {
                lemma_key_pos(acc, nk);
                assert(key_pos(acc, nk) < 0) by {
                    if key_pos(acc, nk) >= 0 {
                        assert(shifted_key(s[0].0, start, delta) != Some(acc[key_pos(acc, nk)].0));
                    }
                }
                let next = seq![(nk, s[0].1)] + acc;
                assert(put_entry(acc, cap, nk, s[0].1) == next);
                assert(distinct_keys(next)) by {
                    assert forall|i: int, j: int| 0 <= i < j < next.len() implies (#[trigger] next[i]).0 != (#[trigger] next[j]).0 by {
                        assert(next[j] == acc[j - 1]);
                        if i > 0 {
                            assert(next[i] == acc[i - 1]);
                        }
                    }
                }
                assert forall|i: int, j: int| 0 <= i < r.len() && 0 <= j < next.len() implies shifted_key((#[trigger] r[i]).0, start, delta) != Some(
                    (#[trigger] next[j]).0,
                ) by {
                    assert(r[i] == s[i + 1]);
                    if j == 0 {
                        assert(s[0].0 != s[i + 1].0);
                        lemma_shifted_key_injective(s[0].0, s[i + 1].0, start, delta);
                    } else {
                        assert(next[j] == acc[j - 1]);
                    }
                }
                lemma_put_shifted_union(r, next, cap, start, delta);
                lemma_entry_map_cons((nk, s[0].1), acc);
                lemma_shift_map_keys(r, start, delta, nk);
                assert(!shift_map(r, start, delta).contains_key(nk)) by {
                    if shift_map(r, start, delta).contains_key(nk) {
                        let i = choose|i: int| 0 <= i < r.len() && shifted_key((#[trigger] r[i]).0, start, delta) == Some(nk);
                        assert(r[i] == s[i + 1]);
                        assert(s[0].0 != s[i + 1].0);
                        lemma_shifted_key_injective(s[0].0, s[i + 1].0, start, delta);
                    }
                }
                assert(entry_map(acc).insert(nk, s[0].1).union_prefer_right(shift_map(r, start, delta)) =~= entry_map(
                    acc,
                ).union_prefer_right(shift_map(r, start, delta).insert(nk, s[0].1)));
            },
            None => {
                assert forall|i: int, j: int| 0 <= i < r.len() && 0 <= j < acc.len() implies shifted_key((#[trigger] r[i]).0, start, delta) != Some(
                    (#[trigger] acc[j]).0,
                ) by {
                    assert(r[i] == s[i + 1]);
                }
                lemma_put_shifted_union(r, acc, cap, start, delta);
            },
        }
    }
}

/// The entries as a map gain their first entry, for distinct keys.
proof fn lemma_entry_map_first(s: Seq<(usize, u64)>)
    requires
        s.len() > 0,
    ensures
        entry_map(s) == entry_map(s.drop_first()).insert(s[0].0, s[0].1),
{
    assert(seq![s[0]] + s.drop_first() =~= s);
    lemma_entry_map_cons(s[0], s.drop_first());
}

/// For entries with distinct keys, the shifted map is the map with its lines moved up.
proof fn lemma_shift_map_is_shifted_up(s: Seq<(usize, u64)>, start: usize, delta: isize)
    requires
        delta > 0,
        distinct_keys(s),
    ensures
        shift_map(s, start, delta) == shifted_up(entry_map(s), start, delta),
    decreases s.len(),
{
    if s.len() == 0 {
        assert(entry_map(s) =~= Map::<usize, u64>::empty());
        assert(shifted_up(entry_map(s), start, delta) =~= Map::<usize, u64>::empty());
    } else {
        let r = s.drop_first();
        assert(distinct_keys(r)) by {
            assert forall|i: int, j: int| 0 <= i < j < r.len() implies (#[trigger] r[i]).0 != (#[trigger] r[j]).0 by {
                assert(r[i] == s[i + 1] && r[j] == s[j + 1]);
            }
        }
        lemma_shift_map_is_shifted_up(r, start, delta);
        lemma_entry_map_first(s);
        let m = entry_map(r);
        let k0 = s[0].0;
        let v0 = s[0].1;
        assert(!m.contains_key(k0)) by {
            lemma_key_pos(r, k0);
            if key_pos(r, k0) >= 0 {
                assert(r[key_pos(r, k0)] == s[key_pos(r, k0) + 1]);
            }
        }
        match shifted_key(k0, start, delta) {
            Some(nk) => {
                assert(shifted_up(m.insert(k0, v0), start, delta) =~= shifted_up(m, start, delta).insert(nk, v0));
            },
            None => {
                assert(shifted_up(m.insert(k0, v0), start, delta) =~= shifted_up(m, start, delta));
            },
        }
    }
}

/// Inserting `delta` lines at `start` (a positive shift) keeps every line before
/// `start` at its index and moves every later line up by `delta`, with its value;
/// no line is lost but those moved past the largest index.
pub proof fn lemma_shift_up_moves_lines(s: Seq<(usize, u64)>, cap: nat, start: usize, delta: isize)
    requires
        distinct_keys(s),
        s.len() <= cap,
        delta > 0,
    ensures
        entry_map(put_shifted(s, Seq::empty(), cap, start, delta)) == shifted_up(entry_map(s), start, delta),
{
    let e = Seq::<(usize, u64)>::empty();
    lemma_put_shifted_union(s, e, cap, start, delta);
    lemma_shift_map_is_shifted_up(s, start, delta);
    assert(entry_map(e) =~= Map::<usize, u64>::empty());
    assert(Map::<usize, u64>::empty().union_prefer_right(shift_map(s, start, delta)) =~= shift_map(s, start, delta));
}

/// In entries with distinct keys, a key stands somewhere exactly when an entry has it.
proof fn lemma_key_found(s: Seq<(usize, u64)>, k: usize)
    requires
        distinct_keys(s),
    ensures
        key_pos(s, k) >= 0 <==> exists|j: int| 0 <= j < s.len() && (#[trigger] s[j]).0 == k,
{
    lemma_key_pos(s, k);
    if exists|j: int| 0 <= j < s.len() && (#[trigger] s[j]).0 == k {
        let j = choose|j: int| 0 <= j < s.len() && (#[trigger] s[j]).0 == k;
        lemma_key_pos_at(s, j);
    }
}

/// The entries hold key `k`.
pub open spec fn holds(s: Seq<(usize, u64)>, k: usize) -> bool {
    key_pos(s, k) >= 0
}

/// The value the entries hold for key `k`.
pub open spec fn value_at(s: Seq<(usize, u64)>, k: usize) -> u64 {
    s[key_pos(s, k)].1
}

/// Some entry of `s` moves to `nk`.
pub open spec fn moved_to(s: Seq<(usize, u64)>, start: usize, delta: isize, nk: usize) -> bool {
    exists|i: int| 0 <= i < s.len() && shifted_key((#[trigger] s[i]).0, start, delta) == Some(nk)
}

/// Entry `i` of `s`, and no other, moves to `nk`.
pub open spec fn only_moved_to(s: Seq<(usize, u64)>, i: int, start: usize, delta: isize, nk: usize) -> bool {
    &&& 0 <= i < s.len()
    &&& shifted_key(s[i].0, start, delta) == Some(nk)
    &&& forall|j: int| 0 <= j < s.len() && j != i ==> shifted_key((#[trigger] s[j]).0, start, delta) != Some(nk)
}

/// A put that evicts nothing adds its key with its value and keeps every other entry.
proof fn lemma_put_keeps(acc: Seq<(usize, u64)>, cap: nat, k: usize, v: u64)
    requires
        distinct_keys(acc),
        acc.len() < cap,
    ensures
        distinct_keys(put_entry(acc, cap, k, v)),
        put_entry(acc, cap, k, v).len() <= acc.len() + 1,
        holds(put_entry(acc, cap, k, v), k),
        value_at(put_entry(acc, cap, k, v), k) == v,
        forall|k2: usize| k2 != k ==> (#[trigger] holds(put_entry(acc, cap, k, v), k2) <==> holds(acc, k2)),
        forall|k2: usize|
            k2 != k && holds(acc, k2) ==> #[trigger] value_at(put_entry(acc, cap, k, v), k2) == value_at(acc, k2),
{
    lemma_put_wf(acc, cap, k, v);
    lemma_key_pos(acc, k);
    let p = key_pos(acc, k);
    let t = if p >= 0 {
        acc.remove(p)
    } else {
        acc
    };
    let r = put_entry(acc, cap, k, v);
    assert(r == seq![(k, v)] + t);
    assert(r.drop_first() =~= t);
    if p >= 0 {
        lemma_remove_distinct(acc, p);
    }
    assert forall|k2: usize|
        #![trigger holds(r, k2)]
        #![trigger value_at(r, k2)]
        k2 != k implies (holds(r, k2) <==> holds(acc, k2)) && (holds(acc, k2) ==> value_at(r, k2) == value_at(acc, k2)) by {
        assert(key_pos(r, k2) == if key_pos(t, k2) < 0 { -1 } else { key_pos(t, k2) + 1 });
        lemma_key_pos(t, k2);
        lemma_key_found(t, k2);
        lemma_key_found(acc, k2);
        if key_pos(acc, k2) >= 0 {
            let j = key_pos(acc, k2);
            lemma_key_pos(acc, k2);
            if p >= 0 {
                let jt = if j < p { j } else { j - 1 };
                assert(j != p);
                assert(t[jt] == acc[j]);
                lemma_key_pos_at(t, jt);
            } else {
                lemma_key_pos_at(t, j);
            }
            assert(r[key_pos(t, k2) + 1] == t[key_pos(t, k2)]);
        }
        if key_pos(t, k2) >= 0 {
            let jt = key_pos(t, k2);
            if p >= 0 {
                let j = if jt < p { jt } else { jt + 1 };
                assert(t[jt] == acc[j]);
            } else {
                assert(t[jt] == acc[jt]);
            }
        }
    }
}

/// Whether some entry moves to `nk`: the first, or one of the rest.
proof fn lemma_moved_step(s: Seq<(usize, u64)>, start: usize, delta: isize, nk: usize)
    requires
        s.len() > 0,
    ensures
        moved_to(s, start, delta, nk) == (shifted_key(s[0].0, start, delta) == Some(nk) || moved_to(
            s.drop_first(),
            start,
            delta,
            nk,
        )),
{
    let r = s.drop_first();
    if moved_to(s, start, delta, nk) {
        let i = choose|i: int| 0 <= i < s.len() && shifted_key((#[trigger] s[i]).0, start, delta) == Some(nk);
        if i > 0 {
            assert(r[i - 1] == s[i]);
        }
    }
    if moved_to(r, start, delta, nk) {
        let i = choose|i: int| 0 <= i < r.len() && shifted_key((#[trigger] r[i]).0, start, delta) == Some(nk);
        assert(s[i + 1] == r[i]);
    }
}

/// One entry moving to `nk` alone: the first, with none of the rest moving there, or
/// one of the rest moving there alone among them.
proof fn lemma_only_moved_step(s: Seq<(usize, u64)>, i: int, start: usize, delta: isize, nk: usize)
    requires
        only_moved_to(s, i, start, delta, nk),
    ensures
        i == 0 ==> !moved_to(s.drop_first(), start, delta, nk),
        i > 0 ==> only_moved_to(s.drop_first(), i - 1, start, delta, nk),
{
    let r = s.drop_first();
    if i == 0 && moved_to(r, start, delta, nk) {
        let j = choose|j: int| 0 <= j < r.len() && shifted_key((#[trigger] r[j]).0, start, delta) == Some(nk);
        assert(s[j + 1] == r[j]);
    }
    if i > 0 {
        assert(r[i - 1] == s[i]);
        assert forall|j: int| 0 <= j < r.len() && j != i - 1 implies shifted_key((#[trigger] r[j]).0, start, delta) != Some(nk) by {
            assert(r[j] == s[j + 1]);
        }
    }
}

/// Putting back shifted entries into a cache with room for them all keeps the keys
/// distinct, and a key is held afterwards exactly when it was held before or some
/// entry moves there.
proof fn lemma_put_shifted_keys(s: Seq<(usize, u64)>, acc: Seq<(usize, u64)>, cap: nat, start: usize, delta: isize)
    requires
        distinct_keys(acc),
        acc.len() + s.len() <= cap,
    ensures
        distinct_keys(put_shifted(s, acc, cap, start, delta)),
        forall|nk: usize|
            #[trigger] holds(put_shifted(s, acc, cap, start, delta), nk) == (holds(acc, nk) || moved_to(s, start, delta, nk)),
    decreases s.len(),
{
    if s.len() > 0 {
        let r = s.drop_first();
        let next = match shifted_key(s[0].0, start, delta) {
            Some(nk) => put_entry(acc, cap, nk, s[0].1),
            None => acc,
        };
        if let Some(nk0) = shifted_key(s[0].0, start, delta) {
            lemma_put_keeps(acc, cap, nk0, s[0].1);
        }
        lemma_put_shifted_keys(r, next, cap, start, delta);
        assert forall|nk: usize| #[trigger] holds(put_shifted(s, acc, cap, start, delta), nk) == (holds(acc, nk) || moved_to(s, start, delta, nk)) by {
            lemma_moved_step(s, start, delta, nk);
        }
    }
}

/// Putting back shifted entries into a cache with room for them all: a key that no
/// entry moves to keeps its value.
proof fn lemma_put_shifted_keeps(s: Seq<(usize, u64)>, acc: Seq<(usize, u64)>, cap: nat, start: usize, delta: isize)
    requires
        distinct_keys(acc),
        acc.len() + s.len() <= cap,
    ensures
        forall|nk: usize|
            holds(acc, nk) && !moved_to(s, start, delta, nk) ==> #[trigger] value_at(put_shifted(s, acc, cap, start, delta), nk)
                == value_at(acc, nk),
    decreases s.len(),
{
    if s.len() > 0 {
        let r = s.drop_first();
        let next = match shifted_key(s[0].0, start, delta) {
            Some(nk) => put_entry(acc, cap, nk, s[0].1),
            None => acc,
        };
        if let Some(nk0) = shifted_key(s[0].0, start, delta) {
            lemma_put_keeps(acc, cap, nk0, s[0].1);
        }
        lemma_put_shifted_keeps(r, next, cap, start, delta);
        assert forall|nk: usize| holds(acc, nk) && !moved_to(s, start, delta, nk) implies #[trigger] value_at(
            put_shifted(s, acc, cap, start, delta),
            nk,
        ) == value_at(acc, nk) by {
            lemma_moved_step(s, start, delta, nk);
            assert(put_shifted(s, acc, cap, start, delta) == put_shifted(r, next, cap, start, delta));
            if let Some(nk0) = shifted_key(s[0].0, start, delta) {
                assert(nk0 != nk);
                assert(holds(next, nk));
                assert(value_at(next, nk) == value_at(acc, nk));
            }
            assert(value_at(put_shifted(r, next, cap, start, delta), nk) == value_at(next, nk));
        }
    }
}

/// Putting back shifted entries into a cache with room for them all: a key that
/// exactly one entry moves to holds that entry's value.
proof fn lemma_put_shifted_only(s: Seq<(usize, u64)>, acc: Seq<(usize, u64)>, cap: nat, start: usize, delta: isize)
    requires
        distinct_keys(acc),
        acc.len() + s.len() <= cap,
    ensures
        forall|i: int, nk: usize|
            #[trigger] only_moved_to(s, i, start, delta, nk) ==> value_at(put_shifted(s, acc, cap, start, delta), nk)
                == s[i].1,
    decreases s.len(),
{
    if s.len() > 0 {
        let r = s.drop_first();
        let next = match shifted_key(s[0].0, start, delta) {
            Some(nk) => put_entry(acc, cap, nk, s[0].1),
            None => acc,
        };
        if let Some(nk0) = shifted_key(s[0].0, start, delta) {
            lemma_put_keeps(acc, cap, nk0, s[0].1);
        }
        lemma_put_shifted_only(r, next, cap, start, delta);
        lemma_put_shifted_keeps(r, next, cap, start, delta);
        assert forall|i: int, nk: usize| #[trigger] only_moved_to(s, i, start, delta, nk) implies value_at(
            put_shifted(s, acc, cap, start, delta),
            nk,
        ) == s[i].1 by {
            lemma_only_moved_step(s, i, start, delta, nk);
            assert(put_shifted(s, acc, cap, start, delta) == put_shifted(r, next, cap, start, delta));
            if i > 0 {
                assert(r[i - 1] == s[i]);
                assert(only_moved_to(r, i - 1, start, delta, nk));
            } else {
                assert(next == put_entry(acc, cap, nk, s[0].1));
                assert(holds(next, nk));
                assert(value_at(next, nk) == s[0].1);
                assert(value_at(put_shifted(r, next, cap, start, delta), nk) == value_at(next, nk));
            }
        }
    }
}

/// Moving lines by any shift (inserted lines when positive, removed ones when
/// negative): a line is held afterwards at index `nk` exactly when some line moved
/// there (lines before `start` stay, the others move by `delta`, and those that would
/// leave the index range are dropped), and a line that no other line lands on keeps
/// its value.
pub proof fn lemma_shift_moves_lines(s: Seq<(usize, u64)>, cap: nat, start: usize, delta: isize)
    requires
        distinct_keys(s),
        s.len() <= cap,
    ensures
        forall|nk: usize|
            #[trigger] entry_map(put_shifted(s, Seq::empty(), cap, start, delta)).contains_key(nk) <==> moved_to(
                s,
                start,
                delta,
                nk,
            ),
        forall|i: int, nk: usize|
            #[trigger] only_moved_to(s, i, start, delta, nk) ==> entry_map(put_shifted(s, Seq::empty(), cap, start, delta))[nk]
                == s[i].1,
{
    let e = Seq::<(usize, u64)>::empty();
    lemma_put_shifted_keys(s, e, cap, start, delta);
    lemma_put_shifted_only(s, e, cap, start, delta);
    let res = put_shifted(s, e, cap, start, delta);
    assert forall|nk: usize| #[trigger] entry_map(res).contains_key(nk) <==> moved_to(s, start, delta, nk) by {
        assert(!holds(e, nk));
        assert(holds(res, nk) == moved_to(s, start, delta, nk));
    }
    assert forall|i: int, nk: usize| #[trigger] only_moved_to(s, i, start, delta, nk) implies entry_map(res)[nk] == s[i].1 by {
        assert(value_at(res, nk) == s[i].1);
        assert(holds(res, nk)) by {
            assert(shifted_key(s[i].0, start, delta) == Some(nk));
            assert(holds(res, nk) == (holds(e, nk) || moved_to(s, start, delta, nk)));
        }
    }
}

/// Default number of lines a cache holds.
pub const DEFAULT_CACHE_SIZE: usize = 1000;

/// Cache for shaped lines.
pub struct ShapeCache {
    cache: LruCache<usize, u64>,
}

impl ShapeCache {
    /// The cached lines, most recently used first.
    pub closed spec fn entries(&self) -> Seq<(usize, u64)> {
        lru_entries(self.cache)
    }

    /// The number of lines the cache holds at most.
    pub closed spec fn capacity(&self) -> nat {
        lru_cap(self.cache)
    }

    /// What every cache keeps.
    pub closed spec fn wf(&self) -> bool {
        lru_wf(self.cache)
    }

    /// Create a new shape cache with the given capacity (at least one line).
    pub fn new(capacity: usize) -> (c: Self)
        ensures
            c.wf(),
            c.entries() == Seq::<(usize, u64)>::empty(),
            c.capacity() == if capacity == 0 { 1 } else { capacity },
    {
        let cap = if capacity == 0 { 1 } else { capacity };
        Self { cache: lru_new(cap) }
    }

    /// Get a shaped line from the cache; the line becomes the most recently used.
    pub fn get(&mut self, line_idx: usize) -> (r: Option<&u64>)
        requires
            old(self).wf(),
        ensures
            final(self).wf(),
            final(self).capacity() == old(self).capacity(),
            key_pos(old(self).entries(), line_idx) >= 0 ==> {
                let p = key_pos(old(self).entries(), line_idx);
                &&& r == Some(&old(self).entries()[p].1)
                &&& final(self).entries() == seq![old(self).entries()[p]] + old(self).entries().remove(p)
            },
            key_pos(old(self).entries(), line_idx) < 0 ==> r is None && final(self).entries() == old(self).entries(),
    {
        proof {
            lemma_move_front_wf(self.entries(), line_idx);
            lemma_key_pos(self.entries(), line_idx);
            if key_pos(self.entries(), line_idx) >= 0 {
                let p = key_pos(self.entries(), line_idx);
                assert(self.entries()[p] == (line_idx, self.entries()[p].1));
            }
        }
        lru_get(&mut self.cache, line_idx)
    }

    /// Get a mutable reference to a shaped line from the cache; the line becomes the
    /// most recently used, with the value written through the reference.
    pub fn get_mut(&mut self, line_idx: usize) -> (r: Option<&mut u64>)
        requires
            old(self).wf(),
        ensures
            final(self).wf(),
            final(self).capacity() == old(self).capacity(),
            key_pos(old(self).entries(), line_idx) >= 0 ==> {
                let p = key_pos(old(self).entries(), line_idx);
                &&& r matches Some(m) && *m == old(self).entries()[p].1
                &&& final(self).entries() == seq![(line_idx, *final(r->0))] + old(self).entries().remove(p)
            },
            key_pos(old(self).entries(), line_idx) < 0 ==> r is None && final(self).entries() == old(self).entries(),
    {
        proof {
            lemma_move_front_wf(self.entries(), line_idx);
        }
        lru_get_mut(&mut self.cache, line_idx)
    }

    /// Check if a line is in the cache without updating the order.
    pub fn contains(&self, line_idx: usize) -> (r: bool)
        ensures
            r == (key_pos(self.entries(), line_idx) >= 0),
    {
        lru_contains(&self.cache, line_idx)
    }

    /// Insert a shaped line into the cache, as the most recently used; where the
    /// cache is full the least recently used line goes.
    pub fn insert(&mut self, line_idx: usize, shape: u64)
        requires
            old(self).wf(),
        ensures
            final(self).wf(),
            final(self).capacity() == old(self).capacity(),
            final(self).entries() == put_entry(old(self).entries(), old(self).capacity(), line_idx, shape),
    {
        proof {
            lemma_put_wf(self.entries(), self.capacity(), line_idx, shape);
        }
        lru_put(&mut self.cache, line_idx, shape);
    }

    /// Remove a shaped line from the cache.
    pub fn remove(&mut self, line_idx: usize) -> (r: Option<u64>)
        requires
            old(self).wf(),
        ensures
            final(self).wf(),
            final(self).capacity() == old(self).capacity(),
            key_pos(old(self).entries(), line_idx) >= 0 ==> {
                let p = key_pos(old(self).entries(), line_idx);
                &&& r == Some(old(self).entries()[p].1)
                &&& final(self).entries() == old(self).entries().remove(p)
            },
            key_pos(old(self).entries(), line_idx) < 0 ==> r is None && final(self).entries() == old(self).entries(),
    {
        proof {
            lemma_key_pos(self.entries(), line_idx);
            if key_pos(self.entries(), line_idx) >= 0 {
                lemma_remove_distinct(self.entries(), key_pos(self.entries(), line_idx));
            }
        }
        lru_pop(&mut self.cache, line_idx)
    }

    /// Clear the entire cache.
    pub fn clear(&mut self)
        requires
            old(self).wf(),
        ensures
            final(self).wf(),
            final(self).capacity() == old(self).capacity(),
            final(self).entries() == Seq::<(usize, u64)>::empty(),
    {
        lru_clear(&mut self.cache);
    }

    /// Get the number of entries in the cache.
    pub fn len(&self) -> (n: usize)
        ensures
            n == self.entries().len(),
    {
        lru_len(&self.cache)
    }

    /// Check if the cache is empty.
    pub fn is_empty(&self) -> (r: bool)
        ensures
            r == (self.entries().len() == 0),
    {
        lru_is_empty(&self.cache)
    }

    /// Invalidate all lines at or after the given index.
    pub fn invalidate_from(&mut self, start_line: usize)
        requires
            old(self).wf(),
        ensures
            final(self).wf(),
            final(self).capacity() == old(self).capacity(),
            final(self).entries() == below(old(self).entries(), start_line),
    {
        invalidate_entries_from(&mut self.cache, start_line);
    }

    /// Shift all line indices at or after `start` by `delta`: lines inserted where
    /// positive, removed where negative. The lines are put back in turn, most
    /// recently used first, so their order turns around; a line shifted out of range
    /// goes, and of two lines shifted onto one index the less recently used one stays.
    pub fn shift_lines(&mut self, start: usize, delta: isize)
        requires
            old(self).wf(),
            delta == isize::MIN ==> forall|i: int| 0 <= i < old(self).entries().len() ==> (#[trigger] old(self).entries()[i]).0 < start,
        ensures
            final(self).wf(),
            final(self).capacity() == old(self).capacity(),
            final(self).entries() == if delta == 0 {
                old(self).entries()
            } else {
                put_shifted(old(self).entries(), Seq::empty(), old(self).capacity(), start, delta)
            },
    {
        proof {
            if delta == isize::MIN {
                assert forall|i: int| 0 <= i < lru_entries(self.cache).len() implies (#[trigger] lru_entries(self.cache)[i]).0 < start by {
                    assert(self.entries()[i] == lru_entries(self.cache)[i]);
                }
            }
        }
        shift_entries(&mut self.cache, start, delta);
    }

    /// Resize the cache capacity (at least one line); the least recently used lines
    /// past it go.
    pub fn resize(&mut self, capacity: usize)
        requires
            old(self).wf(),
        ensures
            final(self).wf(),
            final(self).capacity() == if capacity == 0 { 1 } else { capacity },
            final(self).entries() == if old(self).entries().len() > final(self).capacity() {
                old(self).entries().take(final(self).capacity() as int)
            } else {
                old(self).entries()
            },
    {
        let cap = if capacity == 0 { 1 } else { capacity };
        proof {
            lemma_take_distinct(self.entries(), cap as int);
        }
        lru_resize(&mut self.cache, cap);
    }
}

impl Default for ShapeCache {
    fn default() -> (c: Self)
        ensures
            c.wf(),
            c.entries() == Seq::<(usize, u64)>::empty(),
            c.capacity() == DEFAULT_CACHE_SIZE,
    {
        Self::new(DEFAULT_CACHE_SIZE)
    }
}

/// Cache for laid out lines.
pub struct LayoutCache {
    cache: LruCache<usize, u64>,
}

impl LayoutCache {
    /// The cached lines, most recently used first.
    pub closed spec fn entries(&self) -> Seq<(usize, u64)> {
        lru_entries(self.cache)
    }

    /// The number of lines the cache holds at most.
    pub closed spec fn capacity(&self) -> nat {
        lru_cap(self.cache)
    }

    /// What every cache keeps.
    pub closed spec fn wf(&self) -> bool {
        lru_wf(self.cache)
    }

    /// Create a new layout cache with the given capacity (at least one line).
    pub fn new(capacity: usize) -> (c: Self)
        ensures
            c.wf(),
            c.entries() == Seq::<(usize, u64)>::empty(),
            c.capacity() == if capacity == 0 { 1 } else { capacity },
    {
        let cap = if capacity == 0 { 1 } else { capacity };
        Self { cache: lru_new(cap) }
    }

    /// Get a laid out line from the cache; the line becomes the most recently used.
    pub fn get(&mut self, line_idx: usize) -> (r: Option<&u64>)
        requires
            old(self).wf(),
        ensures
            final(self).wf(),
            final(self).capacity() == old(self).capacity(),
            key_pos(old(self).entries(), line_idx) >= 0 ==> {
                let p = key_pos(old(self).entries(), line_idx);
                &&& r == Some(&old(self).entries()[p].1)
                &&& final(self).entries() == seq![old(self).entries()[p]] + old(self).entries().remove(p)
            },
            key_pos(old(self).entries(), line_idx) < 0 ==> r is None && final(self).entries() == old(self).entries(),
    {
        proof {
            lemma_move_front_wf(self.entries(), line_idx);
            lemma_key_pos(self.entries(), line_idx);
            if key_pos(self.entries(), line_idx) >= 0 {
                let p = key_pos(self.entries(), line_idx);
                assert(self.entries()[p] == (line_idx, self.entries()[p].1));
            }
        }
        lru_get(&mut self.cache, line_idx)
    }

    /// Get a mutable reference to a laid out line from the cache; the line becomes the
    /// most recently used, with the value written through the reference.
    pub fn get_mut(&mut self, line_idx: usize) -> (r: Option<&mut u64>)
        requires
            old(self).wf(),
        ensures
            final(self).wf(),
            final(self).capacity() == old(self).capacity(),
            key_pos(old(self).entries(), line_idx) >= 0 ==> {
                let p = key_pos(old(self).entries(), line_idx);
                &&& r matches Some(m) && *m == old(self).entries()[p].1
                &&& final(self).entries() == seq![(line_idx, *final(r->0))] + old(self).entries().remove(p)
            },
            key_pos(old(self).entries(), line_idx) < 0 ==> r is None && final(self).entries() == old(self).entries(),
    {
        proof {
            lemma_move_front_wf(self.entries(), line_idx);
        }
        lru_get_mut(&mut self.cache, line_idx)
    }

    /// Check if a line is in the cache without updating the order.
    pub fn contains(&self, line_idx: usize) -> (r: bool)
        ensures
            r == (key_pos(self.entries(), line_idx) >= 0),
    {
        lru_contains(&self.cache, line_idx)
    }

    /// Insert a laid out line into the cache, as the most recently used; where the
    /// cache is full the least recently used line goes.
    pub fn insert(&mut self, line_idx: usize, layout: u64)
        requires
            old(self).wf(),
        ensures
            final(self).wf(),
            final(self).capacity() == old(self).capacity(),
            final(self).entries() == put_entry(old(self).entries(), old(self).capacity(), line_idx, layout),
    {
        proof {
            lemma_put_wf(self.entries(), self.capacity(), line_idx, layout);
        }
        lru_put(&mut self.cache, line_idx, layout);
    }

    /// Remove a laid out line from the cache.
    pub fn remove(&mut self, line_idx: usize) -> (r: Option<u64>)
        requires
            old(self).wf(),
        ensures
            final(self).wf(),
            final(self).capacity() == old(self).capacity(),
            key_pos(old(self).entries(), line_idx) >= 0 ==> {
                let p = key_pos(old(self).entries(), line_idx);
                &&& r == Some(old(self).entries()[p].1)
                &&& final(self).entries() == old(self).entries().remove(p)
            },
            key_pos(old(self).entries(), line_idx) < 0 ==> r is None && final(self).entries() == old(self).entries(),
    {
        proof {
            lemma_key_pos(self.entries(), line_idx);
            if key_pos(self.entries(), line_idx) >= 0 {
                lemma_remove_distinct(self.entries(), key_pos(self.entries(), line_idx));
            }
        }
        lru_pop(&mut self.cache, line_idx)
    }

    /// Clear the entire cache.
    pub fn clear(&mut self)
        requires
            old(self).wf(),
        ensures
            final(self).wf(),
            final(self).capacity() == old(self).capacity(),
            final(self).entries() == Seq::<(usize, u64)>::empty(),
    {
        lru_clear(&mut self.cache);
    }

    /// Get the number of entries in the cache.
    pub fn len(&self) -> (n: usize)
        ensures
            n == self.entries().len(),
    {
        lru_len(&self.cache)
    }

    /// Check if the cache is empty.
    pub fn is_empty(&self) -> (r: bool)
        ensures
            r == (self.entries().len() == 0),
    {
        lru_is_empty(&self.cache)
    }

    /// Invalidate all lines at or after the given index.
    pub fn invalidate_from(&mut self, start_line: usize)
        requires
            old(self).wf(),
        ensures
            final(self).wf(),
            final(self).capacity() == old(self).capacity(),
            final(self).entries() == below(old(self).entries(), start_line),
    {
        invalidate_entries_from(&mut self.cache, start_line);
    }

    /// Shift all line indices at or after `start` by `delta`: lines inserted where
    /// positive, removed where negative. The lines are put back in turn, most
    /// recently used first, so their order turns around; a line shifted out of range
    /// goes, and of two lines shifted onto one index the less recently used one stays.
    pub fn shift_lines(&mut self, start: usize, delta: isize)
        requires
            old(self).wf(),
            delta == isize::MIN ==> forall|i: int| 0 <= i < old(self).entries().len() ==> (#[trigger] old(self).entries()[i]).0 < start,
        ensures
            final(self).wf(),
            final(self).capacity() == old(self).capacity(),
            final(self).entries() == if delta == 0 {
                old(self).entries()
            } else {
                put_shifted(old(self).entries(), Seq::empty(), old(self).capacity(), start, delta)
            },
    {
        proof {
            if delta == isize::MIN {
                assert forall|i: int| 0 <= i < lru_entries(self.cache).len() implies (#[trigger] lru_entries(self.cache)[i]).0 < start by {
                    assert(self.entries()[i] == lru_entries(self.cache)[i]);
                }
            }
        }
        shift_entries(&mut self.cache, start, delta);
    }

    /// Resize the cache capacity (at least one line); the least recently used lines
    /// past it go.
    pub fn resize(&mut self, capacity: usize)
        requires
            old(self).wf(),
        ensures
            final(self).wf(),
            final(self).capacity() == if capacity == 0 { 1 } else { capacity },
            final(self).entries() == if old(self).entries().len() > final(self).capacity() {
                old(self).entries().take(final(self).capacity() as int)
            } else {
                old(self).entries()
            },
    {
        let cap = if capacity == 0 { 1 } else { capacity };
        proof {
            lemma_take_distinct(self.entries(), cap as int);
        }
        lru_resize(&mut self.cache, cap);
    }
}

impl Default for LayoutCache {
    fn default() -> (c: Self)
        ensures
            c.wf(),
            c.entries() == Seq::<(usize, u64)>::empty(),
            c.capacity() == DEFAULT_CACHE_SIZE,
    {
        Self::new(DEFAULT_CACHE_SIZE)
    }
}

/// Combined cache for both shaping and layout.
pub struct LineCache {
    /// Cache for shaped lines.
    pub shape: ShapeCache,
    /// Cache for laid out lines.
    pub layout: LayoutCache,
}

impl LineCache {
    /// Both caches keep what every cache keeps.
    pub open spec fn wf(&self) -> bool {
        self.shape.wf() && self.layout.wf()
    }

    /// Create a new line cache with the given capacity for each cache.
    pub fn new(capacity: usize) -> (c: Self)
        ensures
            c.wf(),
            c.shape.entries() == Seq::<(usize, u64)>::empty(),
            c.layout.entries() == Seq::<(usize, u64)>::empty(),
            c.shape.capacity() == if capacity == 0 { 1 } else { capacity },
            c.layout.capacity() == if capacity == 0 { 1 } else { capacity },
    {
        Self { shape: ShapeCache::new(capacity), layout: LayoutCache::new(capacity) }
    }

    /// Clear both caches.
    pub fn clear(&mut self)
        requires
            old(self).wf(),
        ensures
            final(self).wf(),
            final(self).shape.entries() == Seq::<(usize, u64)>::empty(),
            final(self).layout.entries() == Seq::<(usize, u64)>::empty(),
            final(self).shape.capacity() == old(self).shape.capacity(),
            final(self).layout.capacity() == old(self).layout.capacity(),
    {
        self.shape.clear();
        self.layout.clear();
    }

    /// Invalidate a specific line in both caches.
    pub fn invalidate_line(&mut self, line_idx: usize)
        requires
            old(self).wf(),
        ensures
            final(self).wf(),
            final(self).shape.entries() == without_keys(old(self).shape.entries(), seq![line_idx]),
            final(self).layout.entries() == without_keys(old(self).layout.entries(), seq![line_idx]),
            final(self).shape.capacity() == old(self).shape.capacity(),
            final(self).layout.capacity() == old(self).layout.capacity(),
    {
        proof {
            lemma_remove_key(self.shape.entries(), line_idx);
            lemma_remove_key(self.layout.entries(), line_idx);
        }
        self.shape.remove(line_idx);
        self.layout.remove(line_idx);
    }

    /// Invalidate all lines at or after the given index in both caches.
    pub fn invalidate_from(&mut self, start_line: usize)
        requires
            old(self).wf(),
        ensures
            final(self).wf(),
            final(self).shape.entries() == below(old(self).shape.entries(), start_line),
            final(self).layout.entries() == below(old(self).layout.entries(), start_line),
            final(self).shape.capacity() == old(self).shape.capacity(),
            final(self).layout.capacity() == old(self).layout.capacity(),
    {
        self.shape.invalidate_from(start_line);
        self.layout.invalidate_from(start_line);
    }

    /// Shift all line indices in both caches.
    pub fn shift_lines(&mut self, start: usize, delta: isize)
        requires
            old(self).wf(),
            delta == isize::MIN ==> forall|i: int| 0 <= i < old(self).shape.entries().len() ==> (#[trigger] old(self).shape.entries()[i]).0 < start,
            delta == isize::MIN ==> forall|i: int| 0 <= i < old(self).layout.entries().len() ==> (#[trigger] old(self).layout.entries()[i]).0 < start,
        ensures
            final(self).wf(),
            final(self).shape.capacity() == old(self).shape.capacity(),
            final(self).layout.capacity() == old(self).layout.capacity(),
            final(self).shape.entries() == if delta == 0 {
                old(self).shape.entries()
            } else {
                put_shifted(old(self).shape.entries(), Seq::empty(), old(self).shape.capacity(), start, delta)
            },
            final(self).layout.entries() == if delta == 0 {
                old(self).layout.entries()
            } else {
                put_shifted(old(self).layout.entries(), Seq::empty(), old(self).layout.capacity(), start, delta)
            },
    {
        self.shape.shift_lines(start, delta);
        self.layout.shift_lines(start, delta);
    }

    /// Resize both caches.
    pub fn resize(&mut self, capacity: usize)
        requires
            old(self).wf(),
        ensures
            final(self).wf(),
            final(self).shape.capacity() == if capacity == 0 { 1 } else { capacity },
            final(self).layout.capacity() == if capacity == 0 { 1 } else { capacity },
            final(self).shape.entries() == if old(self).shape.entries().len() > final(self).shape.capacity() {
                old(self).shape.entries().take(final(self).shape.capacity() as int)
            } else {
                old(self).shape.entries()
            },
            final(self).layout.entries() == if old(self).layout.entries().len() > final(self).layout.capacity() {
                old(self).layout.entries().take(final(self).layout.capacity() as int)
            } else {
                old(self).layout.entries()
            },
    {
        self.shape.resize(capacity);
        self.layout.resize(capacity);
    }

    /// Invalidate only the layout cache for a line (shape is still valid).
    pub fn invalidate_layout(&mut self, line_idx: usize)
        requires
            old(self).wf(),
        ensures
            final(self).wf(),
            final(self).shape == old(self).shape,
            final(self).layout.entries() == without_keys(old(self).layout.entries(), seq![line_idx]),
            final(self).layout.capacity() == old(self).layout.capacity(),
    {
        proof {
            lemma_remove_key(self.layout.entries(), line_idx);
        }
        self.layout.remove(line_idx);
    }

    /// Invalidate all layout entries (when layout parameters change).
    pub fn clear_layout(&mut self)
        requires
            old(self).wf(),
        ensures
            final(self).wf(),
            final(self).shape == old(self).shape,
            final(self).layout.entries() == Seq::<(usize, u64)>::empty(),
            final(self).layout.capacity() == old(self).layout.capacity(),
    {
        self.layout.clear();
    }
}

impl Default for LineCache {
    fn default() -> (c: Self)
        ensures
            c.wf(),
            c.shape.entries() == Seq::<(usize, u64)>::empty(),
            c.layout.entries() == Seq::<(usize, u64)>::empty(),
            c.shape.capacity() == DEFAULT_CACHE_SIZE,
            c.layout.capacity() == DEFAULT_CACHE_SIZE,
    {
        Self { shape: ShapeCache::default(), layout: LayoutCache::default() }
    }
}

/// Removing a key's entry is taking that key out.
proof fn lemma_remove_key(s: Seq<(usize, u64)>, k: usize)
    requires
        distinct_keys(s),
    ensures
        key_pos(s, k) >= 0 ==> s.remove(key_pos(s, k)) == without_keys(s, seq![k]),
        key_pos(s, k) < 0 ==> s == without_keys(s, seq![k]),
{
    lemma_without_empty(s, Seq::<usize>::empty());
    assert(Seq::<usize>::empty().push(k) =~= seq![k]);
    lemma_remove_is_without(s, Seq::<usize>::empty(), k);
}

/// Moving an entry to the front, with any value, keeps the keys distinct.
proof fn lemma_move_front_wf(s: Seq<(usize, u64)>, k: usize)
    requires
        distinct_keys(s),
    ensures
        key_pos(s, k) >= 0 ==> forall|v: u64| distinct_keys(#[trigger] (seq![(k, v)] + s.remove(key_pos(s, k))))
            && (seq![(k, v)] + s.remove(key_pos(s, k))).len() == s.len(),
{
    lemma_key_pos(s, k);
    let p = key_pos(s, k);
    if p >= 0 {
        lemma_remove_distinct(s, p);
        let t = s.remove(p);
        assert forall|v: u64| distinct_keys(#[trigger] (seq![(k, v)] + t)) && (seq![(k, v)] + t).len() == s.len() by {
            let r = seq![(k, v)] + t;
            assert forall|i: int, j: int| 0 <= i < j < r.len() implies (#[trigger] r[i]).0 != (#[trigger] r[j]).0 by {
                assert(r[j] == t[j - 1]);
                let b = if j - 1 < p { j - 1 } else { j };
                assert(t[j - 1] == s[b]);
                if i == 0 {
                    assert(s[p].0 != s[b].0);
                } else {
                    assert(r[i] == t[i - 1]);
                }
            }
        }
    }
}

/// The first entries keep the keys distinct.
proof fn lemma_take_distinct(s: Seq<(usize, u64)>, n: int)
    requires
        distinct_keys(s),
        0 <= n,
    ensures
        n < s.len() ==> distinct_keys(s.take(n)),
{
    if n < s.len() {
        let t = s.take(n);
        assert forall|i: int, j: int| 0 <= i < j < t.len() implies (#[trigger] t[i]).0 != (#[trigger] t[j]).0 by {
            assert(t[i] == s[i] && t[j] == s[j]);
        }
    }
}

} // verus!
