//! The readiness ledger: an ordered map from key to a pending-notification
//! count. Iteration order realizes the fairness policy — the oldest
//! untouched key is served first, and a key that still has notifications
//! pending after being served is re-inserted at the tail.
//!
//! The ordered map itself is `indexmap::IndexMap`; the operations on top of
//! it — coalescing notifications into counts and rotating served keys — are
//! verified against the contracts of a few trusted wrappers.

use vstd::prelude::*;
use indexmap::IndexMap;

verus! {

#[verifier::external_type_specification]
#[verifier::external_body]
#[verifier::reject_recursive_types(K)]
#[verifier::reject_recursive_types(V)]
#[verifier::reject_recursive_types(S)]
pub struct ExIndexMap<K, V, S>(IndexMap<K, V, S>);

/// The `(key, pending count)` entries an index map holds, in iteration order.
pub uninterp spec fn entries_of(m: IndexMap<u64, usize>) -> Seq<(u64, usize)>;

/// Relies on `IndexMap::new`: a freshly created map is empty.
#[verifier::external_body]
fn map_new() -> (m: IndexMap<u64, usize>)
    ensures
        entries_of(m) == Seq::<(u64, usize)>::empty(),
{
    IndexMap::new()
}

/// Relies on `IndexMap::len`: the number of entries in the map.
#[verifier::external_body]
fn map_len(m: &IndexMap<u64, usize>) -> (n: usize)
    ensures
        n == entries_of(*m).len(),
{
    m.len()
}

/// Relies on `IndexMap::get_full`: the index and value stored for a key, or
/// `None` when no entry has that key.
#[verifier::external_body]
fn map_get_full(m: &IndexMap<u64, usize>, k: u64) -> (r: Option<(usize, usize)>)
    ensures
        match r {
            Some(p) => p.0 < entries_of(*m).len() && entries_of(*m)[p.0 as int] == (k, p.1),
            None => forall|j: int| 0 <= j < entries_of(*m).len() ==> entries_of(*m)[j].0 != k,
        },
{
    m.get_full(&k).map(|(i, _, c)| (i, *c))
}

/// Relies on `IndexMap::insert_full`: an existing key keeps its place in the
/// order and its value is replaced; a new key goes last in the order.
#[verifier::external_body]
fn map_insert_full(m: &mut IndexMap<u64, usize>, k: u64, c: usize) -> (r: (usize, Option<usize>))
    ensures
        match r.1 {
            Some(prev) => {
                &&& (r.0 as int) < entries_of(*old(m)).len()
                &&& entries_of(*old(m))[r.0 as int] == (k, prev)
                &&& entries_of(*final(m)) == entries_of(*old(m)).update(r.0 as int, (k, c))
            },
            None => {
                &&& r.0 == entries_of(*old(m)).len()
                &&& (forall|j: int|
                    0 <= j < entries_of(*old(m)).len() ==> entries_of(*old(m))[j].0 != k)
                &&& entries_of(*final(m)) == entries_of(*old(m)).push((k, c))
            },
        },
{
    m.insert_full(k, c)
}

/// Relies on `IndexMap::shift_remove_index`: removal at an index shifts the
/// later entries down, keeping their relative order.
#[verifier::external_body]
fn map_remove_at(m: &mut IndexMap<u64, usize>, i: usize) -> (r: Option<(u64, usize)>)
    ensures
        i < entries_of(*old(m)).len() ==> r == Some(entries_of(*old(m))[i as int])
            && entries_of(*final(m)) == entries_of(*old(m)).remove(i as int),
        i >= entries_of(*old(m)).len() ==> r == None::<(u64, usize)>
            && entries_of(*final(m)) == entries_of(*old(m)),
{
    m.shift_remove_index(i)
}

/// No two entries share a key.
pub open spec fn distinct_keys(s: Seq<(u64, usize)>) -> bool {
    forall|i: int, j: int| 0 <= i < j < s.len() ==> s[i].0 != s[j].0
}

/// Every entry has at least one pending notification.
pub open spec fn counts_positive(s: Seq<(u64, usize)>) -> bool {
    forall|i: int| 0 <= i < s.len() ==> (#[trigger] s[i]).1 >= 1
}

/// Well-formedness of a ledger: keys unique, counts at least one.
pub open spec fn ledger_wf(s: Seq<(u64, usize)>) -> bool {
    distinct_keys(s) && counts_positive(s)
}

/// Whether some entry carries the key.
pub open spec fn has_key(s: Seq<(u64, usize)>, k: u64) -> bool {
    exists|i: int| 0 <= i < s.len() && (#[trigger] s[i]).0 == k
}

/// Position of the first entry with the key, or `-1` when absent.
pub open spec fn key_index(s: Seq<(u64, usize)>, k: u64) -> int
    decreases s.len(),
{
    if s.len() == 0 {
        -1
    } else if s[0].0 == k {
        0
    } else if key_index(s.drop_first(), k) < 0 {
        -1
    } else {
        1 + key_index(s.drop_first(), k)
    }
}

/// A pending count after one more notification; saturates at the top.
pub open spec fn bump(c: usize) -> usize {
    if c == usize::MAX {
        c
    } else {
        (c + 1) as usize
    }
}

/// Effect of recording one notification for `k`: an existing entry keeps its
/// place with its count raised by one; a fresh entry joins at the tail with
/// count one.
pub open spec fn record_spec(s: Seq<(u64, usize)>, k: u64) -> Seq<(u64, usize)> {
    if has_key(s, k) {
        s.update(key_index(s, k), (k, bump(s[key_index(s, k)].1)))
    } else {
        s.push((k, 1usize))
    }
}

/// The key served by one round of the fairness policy: the head of the order.
pub open spec fn take_key(s: Seq<(u64, usize)>) -> Option<u64> {
    if s.len() == 0 {
        None
    } else {
        Some(s[0].0)
    }
}

/// The ledger after one round: the head entry leaves; if it still had more
/// than one pending notification it rejoins at the tail, decremented.
pub open spec fn take_rest(s: Seq<(u64, usize)>) -> Seq<(u64, usize)> {
    if s.len() == 0 {
        s
    } else if s[0].1 > 1 {
        s.drop_first().push((s[0].0, (s[0].1 - 1) as usize))
    } else {
        s.drop_first()
    }
}

/// The ledger with the entry for `k` dropped, if one exists.
pub open spec fn purge_spec(s: Seq<(u64, usize)>, k: u64) -> Seq<(u64, usize)> {
    if has_key(s, k) {
        s.remove(key_index(s, k))
    } else {
        s
    }
}

pub proof fn lemma_key_index_props(s: Seq<(u64, usize)>, k: u64)
    ensures
        has_key(s, k) <==> 0 <= key_index(s, k) < s.len(),
        has_key(s, k) ==> s[key_index(s, k)].0 == k,
        !has_key(s, k) ==> key_index(s, k) == -1,
        distinct_keys(s) ==> forall|j: int|
            0 <= j < s.len() && (#[trigger] s[j]).0 == k ==> j == key_index(s, k),
    decreases s.len(),
{
    if s.len() == 0 {
    } else {
        let t = s.drop_first();
        lemma_key_index_props(t, k);
        assert(forall|i: int| 0 <= i < t.len() ==> #[trigger] t[i] == s[i + 1]);
        if s[0].0 == k {
            assert(has_key(s, k));
        } else {
            if has_key(s, k) {
                let i = choose|i: int| 0 <= i < s.len() && (#[trigger] s[i]).0 == k;
                assert(t[i - 1] == s[i]);
                assert(has_key(t, k));
            }
            if has_key(t, k) {
                let i = choose|i: int| 0 <= i < t.len() && (#[trigger] t[i]).0 == k;
                assert(s[i + 1] == t[i]);
                assert(has_key(s, k));
            }
        }
    }
}

/// Recording keeps the ledger well formed.
pub proof fn lemma_record_wf(s: Seq<(u64, usize)>, k: u64)
    requires
        ledger_wf(s),
    ensures
        ledger_wf(record_spec(s, k)),
{
    lemma_key_index_props(s, k);
    if has_key(s, k) {
        let i = key_index(s, k);
        let r = s.update(i, (k, bump(s[i].1)));
        assert(forall|j: int| 0 <= j < s.len() && j != i ==> #[trigger] r[j] == s[j]);
        assert(distinct_keys(r));
        assert(counts_positive(r));
    } else {
        let r = s.push((k, 1usize));
        assert(forall|j: int| 0 <= j < s.len() ==> #[trigger] r[j] == s[j]);
        assert(distinct_keys(r));
        assert(counts_positive(r));
    }
}

/// Serving one round keeps the ledger well formed.
pub proof fn lemma_take_wf(s: Seq<(u64, usize)>)
    requires
        ledger_wf(s),
    ensures
        ledger_wf(take_rest(s)),
{
    if s.len() == 0 {
    } else {
        let t = s.drop_first();
        assert(forall|i: int| 0 <= i < t.len() ==> #[trigger] t[i] == s[i + 1]);
        assert(ledger_wf(t));
        if s[0].1 > 1 {
            let r = t.push((s[0].0, (s[0].1 - 1) as usize));
            assert(forall|j: int| 0 <= j < t.len() ==> #[trigger] r[j] == t[j]);
            assert(distinct_keys(r));
            assert(counts_positive(r));
        }
    }
}

/// A batch of notifications, folded into the ledger one at a time, oldest
/// first.
pub open spec fn record_all(s: Seq<(u64, usize)>, ks: Seq<u64>) -> Seq<(u64, usize)>
    decreases ks.len(),
{
    if ks.len() == 0 {
        s
    } else {
        record_spec(record_all(s, ks.drop_last()), ks.last())
    }
}

/// Recording introduces no key but the recorded one.
pub proof fn lemma_record_keys(s: Seq<(u64, usize)>, k: u64)
    ensures
        forall|j: int|
            0 <= j < record_spec(s, k).len() ==> ((#[trigger] record_spec(s, k)[j]).0 == k
                || has_key(s, record_spec(s, k)[j].0)),
{
    lemma_key_index_props(s, k);
    let r = record_spec(s, k);
    assert forall|j: int| 0 <= j < r.len() implies (r[j].0 == k || has_key(s, r[j].0)) by {
        if has_key(s, k) {
            if j != key_index(s, k) {
                assert(r[j] == s[j]);
                assert(has_key(s, s[j].0));
            }
        } else {
            if j < s.len() {
                assert(r[j] == s[j]);
                assert(has_key(s, s[j].0));
            }
        }
    }
}

/// One service round introduces no new key.
pub proof fn lemma_take_rest_keys(s: Seq<(u64, usize)>)
    ensures
        forall|j: int|
            0 <= j < take_rest(s).len() ==> has_key(s, (#[trigger] take_rest(s)[j]).0),
{
    if s.len() > 0 {
        let t = take_rest(s);
        assert forall|j: int| 0 <= j < t.len() implies has_key(s, t[j].0) by {
            if j < s.len() - 1 {
                assert(t[j] == s[j + 1]);
                assert(has_key(s, s[j + 1].0));
            } else {
                assert(t[j].0 == s[0].0);
                assert(has_key(s, s[0].0));
            }
        }
    }
}

/// Dropping a key keeps the ledger well formed, and really drops it.
pub proof fn lemma_purge_wf(s: Seq<(u64, usize)>, k: u64)
    requires
        ledger_wf(s),
    ensures
        ledger_wf(purge_spec(s, k)),
        !has_key(purge_spec(s, k), k),
        forall|j: int| 0 <= j < purge_spec(s, k).len() ==> has_key(
            s,
            (#[trigger] purge_spec(s, k)[j]).0,
        ),
{
    lemma_key_index_props(s, k);
    if has_key(s, k) {
        let i = key_index(s, k);
        let r = s.remove(i);
        s.remove_ensures(i);
        assert(distinct_keys(r));
        assert(counts_positive(r));
        assert forall|j: int| 0 <= j < r.len() implies (#[trigger] r[j]).0 != k by {
            if j < i {
                assert(r[j] == s[j]);
            } else {
                assert(r[j] == s[j + 1]);
            }
        }
        assert forall|j: int| 0 <= j < r.len() implies has_key(s, (#[trigger] r[j]).0) by {
            if j < i {
                assert(r[j] == s[j]);
            } else {
                assert(r[j] == s[j + 1]);
            }
        }
    } else {
        assert forall|j: int| 0 <= j < s.len() implies has_key(s, (#[trigger] s[j]).0) by {
        }
    }
}

/// The readiness ledger. Owned by the multiplexed sequence; a pure data
/// structure with no suspension points.
pub struct Ledger {
    map: IndexMap<u64, usize>,
}

impl View for Ledger {
    type V = Seq<(u64, usize)>;

    closed spec fn view(&self) -> Seq<(u64, usize)> {
        entries_of(self.map)
    }
}

impl Ledger {
    /// Keys unique and every pending count at least one.
    pub open spec fn wf(&self) -> bool {
        ledger_wf(self@)
    }

    pub fn new() -> (r: Ledger)
        ensures
            r@ == Seq::<(u64, usize)>::empty(),
            r.wf(),
    {
        Ledger { map: map_new() }
    }

    pub fn len(&self) -> (n: usize)
        ensures
            n == self@.len(),
    {
        map_len(&self.map)
    }

    pub fn is_empty(&self) -> (b: bool)
        ensures
            b == (self@.len() == 0),
    {
        map_len(&self.map) == 0
    }

    /// One notification for `k` arrives: its pending count rises by one, or a
    /// fresh entry joins at the tail with count one. This is the coalescing
    /// step — bursts collapse into a counter, not into repeated entries.
    pub fn record(&mut self, k: u64)
        requires
            old(self).wf(),
        ensures
            final(self).wf(),
            final(self)@ == record_spec(old(self)@, k),
    {
        proof {
            lemma_key_index_props(self@, k);
            lemma_record_wf(self@, k);
        }
        match map_get_full(&self.map, k) {
            Some(p) => {
                let c2: usize = if p.1 == usize::MAX {
                    p.1
                } else {
                    p.1 + 1
                };
                let r = map_insert_full(&mut self.map, k, c2);
                proof {
                    assert(has_key(old(self)@, k));
                    assert(p.0 as int == key_index(old(self)@, k));
                    assert(r.1 is Some);
                    assert(r.0 == p.0);
                }
            },
            None => {
                let r = map_insert_full(&mut self.map, k, 1);
                proof {
                    assert(!has_key(old(self)@, k));
                    assert(r.1 is None);
                }
            },
        }
    }

    /// One round of the fairness policy: if anything is pending, the oldest
    /// entry's key is served; the entry leaves the head, rejoining at the tail
    /// with its count decremented when notifications remain for it.
    pub fn take_ready(&mut self) -> (r: Option<u64>)
        requires
            old(self).wf(),
        ensures
            final(self).wf(),
            r == take_key(old(self)@),
            final(self)@ == take_rest(old(self)@),
    {
        proof {
            lemma_take_wf(self@);
        }
        match map_remove_at(&mut self.map, 0) {
            None => None,
            Some(e) => {
                proof {
                    assert(old(self)@.len() > 0);
                    assert(e == old(self)@[0]);
                    assert(self@ == old(self)@.remove(0));
                    assert(self@ =~= old(self)@.drop_first());
                }
                if e.1 > 1 {
                    let r = map_insert_full(&mut self.map, e.0, e.1 - 1);
                    proof {
                        let t = old(self)@.drop_first();
                        assert(forall|i: int| 0 <= i < t.len() ==> #[trigger] t[i] == old(
                            self,
                        )@[i + 1]);
                        assert(r.1 is None);
                    }
                }
                Some(e.0)
            },
        }
    }

    /// Drops the entry for `k`, if one exists; used when a key's channel is
    /// gone for good and its residual readiness is void.
    pub fn purge(&mut self, k: u64)
        requires
            old(self).wf(),
        ensures
            final(self).wf(),
            final(self)@ == purge_spec(old(self)@, k),
    {
        proof {
            lemma_key_index_props(self@, k);
            lemma_purge_wf(self@, k);
        }
        match map_get_full(&self.map, k) {
            Some(p) => {
                let r = map_remove_at(&mut self.map, p.0);
                proof {
                    assert(has_key(old(self)@, k));
                    assert(p.0 as int == key_index(old(self)@, k));
                }
            },
            None => {
                proof {
                    assert(!has_key(old(self)@, k));
                }
            },
        }
    }
}

} // verus!
