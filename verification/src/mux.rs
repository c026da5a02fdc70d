//! The channel multiplexer: merges a dynamically growing set of keyed,
//! bounded data channels into one consumer-facing sequence of
//! `(key, value)` pairs, without scanning all producers for ready data.
//!
//! Each sender pushes a value into its key's bounded data channel and then
//! enqueues the key on a shared unbounded notification channel, in that
//! order. A pull first drains the buffered notifications into the readiness
//! ledger — coalescing bursts into counts — and then serves exactly one
//! value from the oldest ready key.
//!
//! The channels are `futures::channel::mpsc` endpoints behind trusted
//! wrappers; the drain, selection and bookkeeping around them are verified.
//!
//! Keys are `u64` identifiers: a caller with richer keys assigns each one
//! an identifier at registration time.

use vstd::prelude::*;
use std::collections::HashMap;
use futures::channel::mpsc::Sender;
use futures::channel::mpsc::Receiver;
use futures::channel::mpsc::UnboundedSender;
use futures::channel::mpsc::UnboundedReceiver;
use crate::DuplicateKeyError;
use crate::ledger::Ledger;
use crate::ledger::ledger_wf;
use crate::ledger::has_key;
use crate::ledger::record_spec;
use crate::ledger::take_rest;
use crate::ledger::purge_spec;

verus! {

broadcast use vstd::std_specs::hash::group_hash_axioms;

#[verifier::external_type_specification]
#[verifier::external_body]
#[verifier::reject_recursive_types(T)]
pub struct ExSender<T>(Sender<T>);

#[verifier::external_type_specification]
#[verifier::external_body]
#[verifier::reject_recursive_types(T)]
pub struct ExReceiver<T>(Receiver<T>);

#[verifier::external_type_specification]
#[verifier::external_body]
#[verifier::reject_recursive_types(T)]
pub struct ExUnboundedSender<T>(UnboundedSender<T>);

#[verifier::external_type_specification]
#[verifier::external_body]
#[verifier::reject_recursive_types(T)]
pub struct ExUnboundedReceiver<T>(UnboundedReceiver<T>);

/// Error handed back by a failed send.
pub enum SendError<V> {
    /// The key's data channel is at capacity; the rejected value comes back,
    /// nothing is dropped or reordered.
    Full(V),
    /// The key's data channel is closed — the consumer is gone or the key was
    /// closed explicitly; the rejected value comes back.
    Closed(V),
    /// The shared notification channel refused the key after the value was
    /// already enqueued. The multiplexer keeps that channel open for as long
    /// as it lives, so this reports an unrecoverable defect, not a state the
    /// caller can mend.
    Violation,
}

/// Outcome of one non-suspending receive.
pub enum Recv<T> {
    /// A message was fetched.
    Item(T),
    /// Nothing buffered right now, but the channel is open.
    Empty,
    /// The channel is closed and drained.
    Closed,
}

/// Relies on `futures::channel::mpsc::channel`: a fresh bounded channel pair.
/// The primitive refuses buffer sizes of a quarter of the address space and
/// up, hence the bound on `buffer`.
#[verifier::external_body]
fn new_data_channel<V>(buffer: usize) -> (Sender<V>, Receiver<V>)
    requires
        buffer < usize::MAX / 4,
{
    futures::channel::mpsc::channel(buffer)
}

/// Relies on `futures::channel::mpsc::unbounded`: a fresh unbounded channel
/// pair.
#[verifier::external_body]
fn new_note_channel() -> (UnboundedSender<u64>, UnboundedReceiver<u64>) {
    futures::channel::mpsc::unbounded()
}

/// Relies on `UnboundedSender::clone`: another producer handle for the same
/// channel.
#[verifier::external_body]
fn clone_note_sender(s: &UnboundedSender<u64>) -> UnboundedSender<u64> {
    s.clone()
}

/// Relies on `Sender::try_send`: on failure the message comes back inside the
/// error, marked full or disconnected.
#[verifier::external_body]
fn data_try_send<V>(s: &mut Sender<V>, v: V) -> (r: Result<(), SendError<V>>)
    ensures
        r matches Err(SendError::Full(x)) ==> x == v,
        r matches Err(SendError::Closed(x)) ==> x == v,
        !(r matches Err(SendError::Violation)),
{
    match s.try_send(v) {
        Ok(()) => Ok(()),
        Err(e) => {
            if e.is_full() {
                Err(SendError::Full(e.into_inner()))
            } else {
                Err(SendError::Closed(e.into_inner()))
            }
        },
    }
}

/// Relies on `UnboundedSender::unbounded_send`: succeeds as long as the
/// receiving half is alive; no capacity limit applies.
#[verifier::external_body]
fn note_send(s: &UnboundedSender<u64>, k: u64) -> (ok: bool) {
    s.unbounded_send(k).is_ok()
}

/// Relies on `UnboundedReceiver::try_recv`: a message, or empty-but-open, or
/// closed-and-drained, without suspending.
#[verifier::external_body]
fn note_try_recv(r: &mut UnboundedReceiver<u64>) -> (e: Recv<u64>) {
    match r.try_recv() {
        Ok(k) => Recv::Item(k),
        Err(futures::channel::mpsc::TryRecvError::Empty) => Recv::Empty,
        Err(futures::channel::mpsc::TryRecvError::Closed) => Recv::Closed,
    }
}

/// Relies on `Receiver::try_recv`: a message, or empty-but-open, or
/// closed-and-drained, without suspending. The channel is a queue: each
/// producer's messages come out in the order that producer sent them, which
/// is what per-key first-in-first-out delivery rests on; no wrapper
/// contract can state it, since the queue is shared between endpoints.
#[verifier::external_body]
fn data_try_recv<V>(r: &mut Receiver<V>) -> (e: Recv<V>) {
    match r.try_recv() {
        Ok(v) => Recv::Item(v),
        Err(futures::channel::mpsc::TryRecvError::Empty) => Recv::Empty,
        Err(futures::channel::mpsc::TryRecvError::Closed) => Recv::Closed,
    }
}

/// Relies on `Sender::close_channel`: closes the key's data channel from the
/// producer side; idempotent.
#[verifier::external_body]
fn data_close<V>(s: &mut Sender<V>) {
    s.close_channel()
}

/// Per-key write capability: the key, its data-channel producer, and a clone
/// of the shared notification-channel producer.
#[verifier::reject_recursive_types(V)]
pub struct ChannelMuxSender<V> {
    key: u64,
    data: Sender<V>,
    notes: UnboundedSender<u64>,
}

impl<V> ChannelMuxSender<V> {
    /// The key this handle writes to.
    pub closed spec fn key_spec(&self) -> u64 {
        self.key
    }

    pub fn key(&self) -> (k: u64)
        ensures
            k == self.key_spec(),
    {
        self.key
    }

    /// Pushes `value` into this key's data channel and, on success, enqueues
    /// exactly one notification for the key — in that order, so the value is
    /// visible to the consumer by the time the notification is.
    ///
    /// A rejected value is handed back: nothing is dropped or reordered.
    pub fn try_send(&mut self, value: V) -> (r: Result<(), SendError<V>>)
        ensures
            final(self).key_spec() == old(self).key_spec(),
            r matches Err(SendError::Full(x)) ==> x == value,
            r matches Err(SendError::Closed(x)) ==> x == value,
    {
        match data_try_send(&mut self.data, value) {
            Ok(()) => {
                if note_send(&self.notes, self.key) {
                    Ok(())
                } else {
                    Err(SendError::Violation)
                }
            },
            Err(e) => Err(e),
        }
    }

    /// Closes this key's data channel early. Idempotent, and without effect
    /// on the shared notification channel, which other keys still use.
    pub fn close(&mut self)
        ensures
            final(self).key_spec() == old(self).key_spec(),
    {
        data_close(&mut self.data);
    }

    /// The data-channel producer itself, for an unverified asynchronous
    /// shell that must park until the channel has room; the verified
    /// operations here never suspend.
    pub fn data_sender(&mut self) -> &mut Sender<V> {
        &mut self.data
    }
}

/// How many buffered notifications one pull will drain at most; what is
/// left over stays buffered for the next pull, so a flood of notifications
/// cannot keep a single pull busy forever.
pub const DRAIN_BOUND: usize = 4096;

/// Outcome of one pull of the multiplexed sequence.
pub enum Pull<V> {
    /// One value, served from the given key.
    Item(u64, V),
    /// Nothing to serve this round; pull again once a notification arrives.
    Pending,
    /// No registered channels remain and no readiness is pending: the
    /// sequence has ended, and permanently so — the contract reports
    /// `Exhausted` again on every later pull of such a multiplexer.
    Exhausted,
    /// The notification channel reported closed while this multiplexer holds
    /// a producer for it: an unrecoverable defect in the primitives beneath,
    /// surfaced rather than swallowed.
    Violation,
}

/// How one pull transforms the readiness ledger: `ks` are the notifications
/// drained (each folded in by `record_spec`), after which either the head key
/// is served, or nothing was ready, or the head key's channel stalled (its
/// readiness is re-recorded at the tail) or turned out closed (its readiness
/// is purged).
pub open spec fn pull_transition<V>(
    pre: Seq<(u64, usize)>,
    post: Seq<(u64, usize)>,
    ks: Seq<u64>,
    r: Pull<V>,
) -> bool {
    let drained = crate::ledger::record_all(pre, ks);
    match r {
        Pull::Item(k, v) => drained.len() > 0 && k == drained[0].0 && post == take_rest(drained),
        Pull::Exhausted => drained.len() == 0 && post == drained,
        Pull::Violation => post == drained,
        Pull::Pending => {
            ||| (drained.len() == 0 && post == drained)
            ||| (drained.len() > 0 && post == record_spec(take_rest(drained), drained[0].0))
            ||| (drained.len() > 0 && post == purge_spec(take_rest(drained), drained[0].0))
        },
    }
}

proof fn lemma_registered_sub(s: Seq<(u64, usize)>, t: Seq<(u64, usize)>, reg: Set<u64>)
    requires
        forall|i: int| 0 <= i < s.len() ==> reg.contains((#[trigger] s[i]).0),
        forall|j: int| 0 <= j < t.len() ==> has_key(s, (#[trigger] t[j]).0),
    ensures
        forall|j: int| 0 <= j < t.len() ==> reg.contains((#[trigger] t[j]).0),
{
    assert forall|j: int| 0 <= j < t.len() implies reg.contains((t[j]).0) by {
        let x = t[j].0;
        let i = choose|i: int| 0 <= i < s.len() && (#[trigger] s[i]).0 == x;
        assert(reg.contains(s[i].0));
    }
}

/// The multiplexed sequence: owns the per-key data receivers, the
/// notification receiver, a notification producer retained purely to keep
/// that channel open, and the readiness ledger.
#[verifier::reject_recursive_types(V)]
pub struct ChannelMux<V> {
    channels: HashMap<u64, Receiver<V>>,
    notes_recv: UnboundedReceiver<u64>,
    notes_send: UnboundedSender<u64>,
    ready: Ledger,
}

impl<V> ChannelMux<V> {
    /// The set of currently registered keys.
    pub closed spec fn keys(&self) -> Set<u64> {
        self.channels@.dom()
    }

    /// The readiness ledger's entries, in service order.
    pub closed spec fn ledger(&self) -> Seq<(u64, usize)> {
        self.ready@
    }

    /// The stored data receivers, by key. The keys of this map are
    /// [`Self::keys`]; the receiver values let a contract say that a stored
    /// channel stays the channel it was.
    pub closed spec fn channel_map(&self) -> Map<u64, Receiver<V>> {
        self.channels@
    }

    /// The ledger is well formed and every ready key is registered.
    pub open spec fn wf(&self) -> bool {
        &&& ledger_wf(self.ledger())
        &&& forall|i: int|
            0 <= i < self.ledger().len() ==> self.keys().contains((#[trigger] self.ledger()[i]).0)
    }

    pub fn new() -> (r: ChannelMux<V>)
        ensures
            r.wf(),
            r.keys() == Set::<u64>::empty(),
            r.ledger() == Seq::<(u64, usize)>::empty(),
    {
        let (tx, rx) = new_note_channel();
        let r = ChannelMux {
            channels: HashMap::new(),
            notes_recv: rx,
            notes_send: tx,
            ready: Ledger::new(),
        };
        proof {
            assert(r.keys() =~= Set::<u64>::empty());
        }
        r
    }

    /// Registers `key` with a data channel of the given capacity and returns
    /// its write handle, or fails when the key is already registered.
    /// Capacity zero means each producer still gets one guaranteed slot, per
    /// the underlying primitive.
    pub fn add_key(&mut self, key: u64, bound: usize) -> (r: Result<
        ChannelMuxSender<V>,
        DuplicateKeyError,
    >)
        requires
            old(self).wf(),
            bound < usize::MAX / 4,
        ensures
            final(self).wf(),
            final(self).ledger() == old(self).ledger(),
            old(self).keys().contains(key) ==> (r matches Err(_))
                && final(self).keys() == old(self).keys()
                && final(self).channel_map() == old(self).channel_map(),
            !old(self).keys().contains(key) ==> (r matches Ok(s) && s.key_spec() == key)
                && final(self).keys() == old(self).keys().insert(key),
            forall|k0: u64|
                old(self).keys().contains(k0) && k0 != key
                    ==> #[trigger] final(self).channel_map()[k0] == old(self).channel_map()[k0],
    {
        if self.channels.contains_key(&key) {
            return Err(DuplicateKeyError);
        }
        let (tx, rx) = new_data_channel(bound);
        self.channels.insert(key, rx);
        let notes = clone_note_sender(&self.notes_send);
        proof {
            assert(self.keys() =~= old(self).keys().insert(key));
        }
        Ok(ChannelMuxSender { key, data: tx, notes })
    }

    /// Feeds one already-received notification into the readiness ledger: a
    /// registered key's pending count rises by one, a stray key is dropped.
    /// An unverified asynchronous shell that parks on the notification
    /// receiver hands what woke it back through here.
    pub fn record_note(&mut self, k: u64)
        requires
            old(self).wf(),
        ensures
            final(self).wf(),
            final(self).channel_map() == old(self).channel_map(),
            final(self).keys() == old(self).keys(),
            old(self).keys().contains(k) ==> final(self).ledger() == record_spec(
                old(self).ledger(),
                k,
            ),
            !old(self).keys().contains(k) ==> final(self).ledger() == old(self).ledger(),
    {
        if self.channels.contains_key(&k) {
            let ghost prev = self.ready@;
            self.ready.record(k);
            proof {
                crate::ledger::lemma_record_keys(prev, k);
                assert forall|j: int|
                    0 <= j < self.ready@.len() implies self.channels@.dom().contains(
                    (#[trigger] self.ready@[j]).0,
                ) by {
                    let x = self.ready@[j].0;
                    if x != k {
                        let i = choose|i: int| 0 <= i < prev.len() && (#[trigger] prev[i]).0 == x;
                        assert(self.channels@.dom().contains(prev[i].0));
                    }
                }
            }
        }
    }

    /// The notification receiver itself, for an unverified asynchronous
    /// shell that must park until a notification arrives; the verified
    /// operations here never suspend.
    pub fn notes_receiver(&mut self) -> &mut UnboundedReceiver<u64> {
        &mut self.notes_recv
    }

    /// One pull of the sequence, without suspending: drains the buffered
    /// notifications into the ledger (up to [`DRAIN_BOUND`] of them), then
    /// serves one value from the oldest ready key. `Pending` asks the caller
    /// to pull again once a new notification arrives; with no registered
    /// channels left the pull never reports `Pending` — it reports the end
    /// of the sequence (or the notification-channel defect).
    pub fn try_pull(&mut self) -> (r: Pull<V>)
        requires
            old(self).wf(),
        ensures
            final(self).wf(),
            final(self).keys().subset_of(old(self).keys()),
            r matches Pull::Item(k, v) ==> old(self).keys().contains(k) && final(self).keys()
                == old(self).keys(),
            r matches Pull::Item(k, v) ==> forall|k0: u64|
                old(self).keys().contains(k0) && k0 != k
                    ==> #[trigger] final(self).channel_map()[k0] == old(self).channel_map()[k0],
            r matches Pull::Exhausted ==> final(self).keys().is_empty()
                && final(self).ledger().len() == 0,
            old(self).keys().is_empty() ==> (r matches Pull::Exhausted) || (
            r matches Pull::Violation),
            exists|ks: Seq<u64>|
                #[trigger] pull_transition(old(self).ledger(), final(self).ledger(), ks, r),
    {
        let ghost mut ks: Seq<u64> = Seq::empty();
        let mut fuel: usize = DRAIN_BOUND;
        while fuel > 0
            invariant
                self.wf(),
                self.channels@ == old(self).channels@,
                self.ready@ == crate::ledger::record_all(old(self).ready@, ks),
            decreases fuel,
        {
            fuel = fuel - 1;
            match note_try_recv(&mut self.notes_recv) {
                Recv::Item(k) => {
                    if self.channels.contains_key(&k) {
                        let ghost ks0 = ks;
                        let ghost prev = self.ready@;
                        self.ready.record(k);
                        proof {
                            ks = ks0.push(k);
                            assert(ks.drop_last() =~= ks0);
                            crate::ledger::lemma_record_keys(prev, k);
                            assert forall|j: int|
                                0 <= j < self.ready@.len() implies self.channels@.dom().contains(
                                (#[trigger] self.ready@[j]).0,
                            ) by {
                                let x = self.ready@[j].0;
                                if x != k {
                                    let i = choose|i: int|
                                        0 <= i < prev.len() && (#[trigger] prev[i]).0 == x;
                                    assert(self.channels@.dom().contains(prev[i].0));
                                }
                            }
                        }
                    }
                },
                Recv::Empty => {
                    break ;
                },
                Recv::Closed => {
                    proof {
                        assert(pull_transition(
                            old(self).ledger(),
                            self.ledger(),
                            ks,
                            Pull::<V>::Violation,
                        ));
                    }
                    return Pull::Violation;
                },
            }
        }
        let ghost drained = self.ready@;
        match self.ready.take_ready() {
            None => {
                if self.channels.is_empty() {
                    proof {
                        assert(self.keys() =~= Set::<u64>::empty());
                        assert(pull_transition(
                            old(self).ledger(),
                            self.ledger(),
                            ks,
                            Pull::<V>::Exhausted,
                        ));
                    }
                    Pull::Exhausted
                } else {
                    proof {
                        assert(pull_transition(
                            old(self).ledger(),
                            self.ledger(),
                            ks,
                            Pull::<V>::Pending,
                        ));
                    }
                    Pull::Pending
                }
            },
            Some(k) => {
                proof {
                    assert(drained.len() > 0 && k == drained[0].0);
                    assert(self.channels@.dom().contains(drained[0].0));
                }
                match self.channels.remove(&k) {
                    None => {
                        // The ledger only ever holds registered keys, so the
                        // receiver must be present; nothing is served here.
                        proof {
                            assert(false);
                        }
                        Pull::Pending
                    },
                    Some(mut rx) => {
                        match data_try_recv(&mut rx) {
                            Recv::Item(v) => {
                                self.channels.insert(k, rx);
                                proof {
                                    assert(self.channels@.dom() =~= old(self).channels@.dom());
                                    crate::ledger::lemma_take_wf(drained);
                                    crate::ledger::lemma_take_rest_keys(drained);
                                    lemma_registered_sub(
                                        drained,
                                        take_rest(drained),
                                        self.channels@.dom(),
                                    );
                                    assert(pull_transition(
                                        old(self).ledger(),
                                        self.ledger(),
                                        ks,
                                        Pull::Item(k, v),
                                    ));
                                }
                                Pull::Item(k, v)
                            },
                            Recv::Empty => {
                                // The notification outran its value: put the
                                // key's readiness back at the tail, so other
                                // ready keys stay eligible, and report
                                // nothing served this round.
                                self.channels.insert(k, rx);
                                self.ready.record(k);
                                proof {
                                    assert(self.channels@.dom() =~= old(self).channels@.dom());
                                    crate::ledger::lemma_take_wf(drained);
                                    crate::ledger::lemma_take_rest_keys(drained);
                                    crate::ledger::lemma_record_wf(take_rest(drained), k);
                                    crate::ledger::lemma_record_keys(take_rest(drained), k);
                                    lemma_registered_sub(
                                        drained,
                                        take_rest(drained),
                                        self.channels@.dom(),
                                    );
                                    assert forall|j: int|
                                        0 <= j < self.ready@.len() implies self.channels@.dom()
                                        .contains((#[trigger] self.ready@[j]).0) by {
                                        let x = self.ready@[j].0;
                                        if x != k {
                                            let i = choose|i: int|
                                                0 <= i < take_rest(drained).len() && (
                                                #[trigger] take_rest(drained)[i]).0 == x;
                                            assert(self.channels@.dom().contains(
                                                take_rest(drained)[i].0,
                                            ));
                                        }
                                    }
                                    assert(pull_transition(
                                        old(self).ledger(),
                                        self.ledger(),
                                        ks,
                                        Pull::<V>::Pending,
                                    ));
                                }
                                Pull::Pending
                            },
                            Recv::Closed => {
                                // The key's channel is closed and drained:
                                // drop the receiver and whatever readiness
                                // remains for the key, leaving other keys
                                // untouched.
                                self.ready.purge(k);
                                proof {
                                    assert(self.channels@.dom() =~= old(
                                        self,
                                    ).channels@.dom().remove(k));
                                    crate::ledger::lemma_take_wf(drained);
                                    crate::ledger::lemma_take_rest_keys(drained);
                                    crate::ledger::lemma_purge_wf(take_rest(drained), k);
                                    lemma_registered_sub(
                                        drained,
                                        take_rest(drained),
                                        old(self).channels@.dom(),
                                    );
                                    lemma_registered_sub(
                                        take_rest(drained),
                                        self.ready@,
                                        old(self).channels@.dom(),
                                    );
                                    assert forall|j: int|
                                        0 <= j < self.ready@.len() implies self.channels@.dom()
                                        .contains((#[trigger] self.ready@[j]).0) by {
                                        assert(old(self).channels@.dom().contains(
                                            self.ready@[j].0,
                                        ));
                                        assert(self.ready@[j].0 != k);
                                    }
                                    assert(pull_transition(
                                        old(self).ledger(),
                                        self.ledger(),
                                        ks,
                                        Pull::<V>::Pending,
                                    ));
                                }
                                Pull::Pending
                            },
                        }
                    },
                }
            },
        }
    }
}

} // verus!
