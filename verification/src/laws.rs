//! The fairness engine's guarantees, stated and proved over the ledger
//! model: coalescing keeps an exact account of pending notifications, and
//! the service order starves no ready key.

use vstd::prelude::*;
use crate::ledger::distinct_keys;
use crate::ledger::ledger_wf;
use crate::ledger::has_key;
use crate::ledger::key_index;
use crate::ledger::record_spec;
use crate::ledger::record_all;
use crate::ledger::take_key;
use crate::ledger::take_rest;
use crate::ledger::purge_spec;
use crate::ledger::lemma_key_index_props;
use crate::ledger::lemma_record_wf;
use crate::ledger::lemma_take_wf;
use crate::mux::Pull;
use crate::mux::pull_transition;

verus! {

/// Total number of pending notifications the ledger holds for `k`.
pub open spec fn count_of(s: Seq<(u64, usize)>, k: u64) -> int
    decreases s.len(),
{
    if s.len() == 0 {
        0
    } else {
        (if s[0].0 == k {
            s[0].1 as int
        } else {
            0
        }) + count_of(s.drop_first(), k)
    }
}

/// How many of the drained notifications carry `k`.
pub open spec fn occurrences(ks: Seq<u64>, k: u64) -> int
    decreases ks.len(),
{
    if ks.len() == 0 {
        0
    } else {
        occurrences(ks.drop_last(), k) + (if ks.last() == k {
            1int
        } else {
            0int
        })
    }
}

proof fn lemma_count_absent(s: Seq<(u64, usize)>, k: u64)
    requires
        !has_key(s, k),
    ensures
        count_of(s, k) == 0,
    decreases s.len(),
{
    if s.len() > 0 {
        assert(s[0].0 != k);
        let t = s.drop_first();
        assert(forall|i: int| 0 <= i < t.len() ==> #[trigger] t[i] == s[i + 1]);
        assert(!has_key(t, k));
        lemma_count_absent(t, k);
    }
}

proof fn lemma_count_update(s: Seq<(u64, usize)>, i: int, e: (u64, usize), k: u64)
    requires
        0 <= i < s.len(),
    ensures
        count_of(s.update(i, e), k) == count_of(s, k) - (if s[i].0 == k {
            s[i].1 as int
        } else {
            0
        }) + (if e.0 == k {
            e.1 as int
        } else {
            0
        }),
    decreases s.len(),
{
    let r = s.update(i, e);
    if i == 0 {
        assert(r[0] == e);
        assert(r.drop_first() =~= s.drop_first());
    } else {
        assert(r[0] == s[0]);
        assert(r.drop_first() =~= s.drop_first().update(i - 1, e));
        lemma_count_update(s.drop_first(), i - 1, e, k);
    }
}

proof fn lemma_count_push(s: Seq<(u64, usize)>, e: (u64, usize), k: u64)
    ensures
        count_of(s.push(e), k) == count_of(s, k) + (if e.0 == k {
            e.1 as int
        } else {
            0
        }),
    decreases s.len(),
{
    let r = s.push(e);
    assert(count_of(r, k) == (if r[0].0 == k {
        r[0].1 as int
    } else {
        0
    }) + count_of(r.drop_first(), k));
    if s.len() == 0 {
        assert(r[0] == e);
        assert(r.drop_first() =~= Seq::<(u64, usize)>::empty());
        assert(count_of(r.drop_first(), k) == 0);
    } else {
        assert(r[0] == s[0]);
        assert(r.drop_first() =~= s.drop_first().push(e));
        lemma_count_push(s.drop_first(), e, k);
    }
}

/// In a well-formed ledger the pending total for a present key is exactly
/// its single entry's count.
pub proof fn lemma_count_at_index(s: Seq<(u64, usize)>, k: u64)
    requires
        distinct_keys(s),
        has_key(s, k),
    ensures
        count_of(s, k) == s[key_index(s, k)].1,
    decreases s.len(),
{
    lemma_key_index_props(s, k);
    let t = s.drop_first();
    assert(forall|i: int| 0 <= i < t.len() ==> #[trigger] t[i] == s[i + 1]);
    if s[0].0 == k {
        if has_key(t, k) {
            let i = choose|i: int| 0 <= i < t.len() && (#[trigger] t[i]).0 == k;
            assert(s[i + 1].0 == k && s[0].0 == k);
            assert(false);
        }
        lemma_count_absent(t, k);
    } else {
        let i = choose|i: int| 0 <= i < s.len() && (#[trigger] s[i]).0 == k;
        assert(t[i - 1] == s[i]);
        assert(has_key(t, k));
        lemma_count_at_index(t, k);
        lemma_key_index_props(t, k);
        assert(s[key_index(s, k)] == t[key_index(t, k)]);
    }
}

/// Coalescing, one step: recording a notification for a key raises that
/// key's pending total by exactly one (as long as the counter has room) and
/// leaves every other key's total untouched.
pub proof fn lemma_record_count(s: Seq<(u64, usize)>, k: u64, q: u64)
    requires
        ledger_wf(s),
    ensures
        count_of(s, k) < usize::MAX as int ==> count_of(record_spec(s, k), k) == count_of(s, k)
            + 1,
        q != k ==> count_of(record_spec(s, k), q) == count_of(s, q),
{
    lemma_key_index_props(s, k);
    if has_key(s, k) {
        let i = key_index(s, k);
        lemma_count_at_index(s, k);
        lemma_count_update(s, i, (k, crate::ledger::bump(s[i].1)), k);
        lemma_count_update(s, i, (k, crate::ledger::bump(s[i].1)), q);
    } else {
        lemma_count_absent(s, k);
        lemma_count_push(s, (k, 1usize), k);
        lemma_count_push(s, (k, 1usize), q);
    }
}

/// Coalescing, a whole burst: draining any batch of notifications grows
/// each key's pending total by exactly the number of notifications that
/// carried it — bursts collapse into counts, none is lost or invented.
pub proof fn lemma_coalescing(s: Seq<(u64, usize)>, ks: Seq<u64>, k: u64)
    requires
        ledger_wf(s),
        count_of(s, k) + occurrences(ks, k) <= usize::MAX as int,
    ensures
        ledger_wf(record_all(s, ks)),
        count_of(record_all(s, ks), k) == count_of(s, k) + occurrences(ks, k),
    decreases ks.len(),
{
    if ks.len() > 0 {
        let mid = record_all(s, ks.drop_last());
        lemma_coalescing(s, ks.drop_last(), k);
        lemma_record_wf(mid, ks.last());
        lemma_record_count(mid, ks.last(), k);
    }
}

/// Serving one round lowers the served key's pending total by exactly one
/// and leaves every other key's total untouched.
pub proof fn lemma_take_count(s: Seq<(u64, usize)>, q: u64)
    requires
        ledger_wf(s),
        s.len() > 0,
    ensures
        count_of(take_rest(s), s[0].0) == count_of(s, s[0].0) - 1,
        q != s[0].0 ==> count_of(take_rest(s), q) == count_of(s, q),
{
    let t = s.drop_first();
    if s[0].1 > 1 {
        lemma_count_push(t, (s[0].0, (s[0].1 - 1) as usize), s[0].0);
        lemma_count_push(t, (s[0].0, (s[0].1 - 1) as usize), q);
    }
}

proof fn lemma_count_remove(s: Seq<(u64, usize)>, i: int, k: u64)
    requires
        0 <= i < s.len(),
    ensures
        count_of(s.remove(i), k) == count_of(s, k) - (if s[i].0 == k {
            s[i].1 as int
        } else {
            0
        }),
    decreases s.len(),
{
    let r = s.remove(i);
    if i == 0 {
        assert(r =~= s.drop_first());
    } else {
        assert(r[0] == s[0]);
        assert(r.drop_first() =~= s.drop_first().remove(i - 1));
        lemma_count_remove(s.drop_first(), i - 1, k);
    }
}

/// A closed key leaves without disturbing the others: dropping one key's
/// readiness zeroes that key's pending total and leaves every other key's
/// total untouched.
pub proof fn lemma_purge_count(s: Seq<(u64, usize)>, k: u64, q: u64)
    requires
        ledger_wf(s),
    ensures
        count_of(purge_spec(s, k), k) == 0,
        q != k ==> count_of(purge_spec(s, k), q) == count_of(s, q),
{
    lemma_key_index_props(s, k);
    if has_key(s, k) {
        let i = key_index(s, k);
        lemma_count_remove(s, i, k);
        lemma_count_remove(s, i, q);
        lemma_count_at_index(s, k);
    } else {
        lemma_count_absent(s, k);
    }
}

/// The ledger after `n` service rounds.
pub open spec fn take_all(s: Seq<(u64, usize)>, n: nat) -> Seq<(u64, usize)>
    decreases n,
{
    if n == 0 {
        s
    } else {
        take_rest(take_all(s, (n - 1) as nat))
    }
}

proof fn lemma_take_all_prefix(s: Seq<(u64, usize)>, j: int)
    requires
        ledger_wf(s),
        0 <= j <= s.len(),
    ensures
        ledger_wf(take_all(s, j as nat)),
        take_all(s, j as nat).len() >= s.len() - j,
        forall|m: int| 0 <= m < s.len() - j ==> #[trigger] take_all(s, j as nat)[m] == s[j + m],
    decreases j,
{
    if j > 0 {
        lemma_take_all_prefix(s, j - 1);
        let t = take_all(s, (j - 1) as nat);
        lemma_take_wf(t);
        assert(take_all(s, j as nat) == take_rest(t));
        assert(t.len() >= s.len() - j + 1);
        assert(t.len() > 0);
        let u = t.drop_first();
        assert(forall|i: int| 0 <= i < u.len() ==> #[trigger] u[i] == t[i + 1]);
        assert forall|m: int| 0 <= m < s.len() - j implies take_rest(t)[m] == s[j + m] by {
            assert(t[m + 1] == s[j + m]);
            if t[0].1 > 1 {
                assert(take_rest(t)[m] == u.push((t[0].0, (t[0].1 - 1) as usize))[m]);
                assert(m < u.len());
            }
        }
    }
}

/// No starvation: whatever the pending counts are, the key standing at
/// position `i` of the service order is the one served on round `i + 1` —
/// no earlier key is served twice before it, however large their counts.
pub proof fn lemma_no_starvation(s: Seq<(u64, usize)>, i: int)
    requires
        ledger_wf(s),
        0 <= i < s.len(),
    ensures
        take_key(take_all(s, i as nat)) == Some(s[i].0),
{
    lemma_take_all_prefix(s, i);
    assert(take_all(s, i as nat)[0] == s[i]);
}

/// Draining never delays anyone: recording a notification leaves every
/// other pending entry exactly where it stood in the service order, so a
/// waiting key's turn (its position, served on round position + 1) cannot
/// be pushed back by new notifications arriving in between.
pub proof fn lemma_record_preserves_positions(s: Seq<(u64, usize)>, k: u64)
    requires
        ledger_wf(s),
    ensures
        forall|j: int|
            0 <= j < s.len() && (#[trigger] s[j]).0 != k ==> record_spec(s, k)[j] == s[j],
{
    lemma_key_index_props(s, k);
}

/// What one serving pull does to the pending account: every drained
/// notification is credited to its key in full, and the served key alone is
/// debited exactly one — notifications are neither lost nor invented on the
/// way through a pull.
pub proof fn lemma_pull_accounting<V>(
    pre: Seq<(u64, usize)>,
    post: Seq<(u64, usize)>,
    ks: Seq<u64>,
    k: u64,
    v: V,
    q: u64,
)
    requires
        ledger_wf(pre),
        pull_transition(pre, post, ks, Pull::Item(k, v)),
        count_of(pre, k) + occurrences(ks, k) <= usize::MAX as int,
        count_of(pre, q) + occurrences(ks, q) <= usize::MAX as int,
    ensures
        count_of(post, k) == count_of(pre, k) + occurrences(ks, k) - 1,
        q != k ==> count_of(post, q) == count_of(pre, q) + occurrences(ks, q),
{
    let drained = record_all(pre, ks);
    lemma_coalescing(pre, ks, k);
    lemma_coalescing(pre, ks, q);
    lemma_take_count(drained, q);
}

/// Round-robin rotation: a served key that stays ready rejoins behind every
/// other pending key, its count lowered by one, while the others each move
/// up one place in unchanged order.
pub proof fn lemma_served_rejoins_at_tail(s: Seq<(u64, usize)>)
    requires
        ledger_wf(s),
        s.len() > 0,
        s[0].1 > 1,
    ensures
        take_rest(s).len() == s.len(),
        take_rest(s)[take_rest(s).len() - 1] == (s[0].0, (s[0].1 - 1) as usize),
        forall|i: int| 1 <= i < s.len() ==> take_rest(s)[i - 1] == s[i],
{
    let t = s.drop_first();
    assert(forall|i: int| 0 <= i < t.len() ==> #[trigger] t[i] == s[i + 1]);
}

} // verus!
