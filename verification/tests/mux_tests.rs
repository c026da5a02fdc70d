use channelmux::mux::ChannelMux;
use channelmux::mux::Pull;
use channelmux::mux::SendError;

fn expect_item(p: Pull<u64>) -> (u64, u64) {
    match p {
        Pull::Item(k, v) => (k, v),
        Pull::Pending => panic!("expected a value, the pull is pending"),
        Pull::Exhausted => panic!("expected a value, the sequence is exhausted"),
        Pull::Violation => panic!("notification channel failure"),
    }
}

#[test]
fn it_works() {
}

#[test]
fn weighted_round_robin_scenario() {
    // Keys A = 1 (capacity 2) and B = 2 (capacity 2); send A:1, A:2, B:10.
    // A accumulates two pending notifications, B one, so round-robin serves
    // A once (count drops to 1, A requeued), then B once, then A again.
    let mut mux: ChannelMux<u64> = ChannelMux::new();
    let mut a = match mux.add_key(1, 2) {
        Ok(s) => s,
        Err(_) => panic!("key 1 is fresh"),
    };
    let mut b = match mux.add_key(2, 2) {
        Ok(s) => s,
        Err(_) => panic!("key 2 is fresh"),
    };
    assert!(a.try_send(1).is_ok());
    assert!(a.try_send(2).is_ok());
    assert!(b.try_send(10).is_ok());

    assert_eq!(expect_item(mux.try_pull()), (1, 1));
    assert_eq!(expect_item(mux.try_pull()), (2, 10));
    assert_eq!(expect_item(mux.try_pull()), (1, 2));
    assert!(matches!(mux.try_pull(), Pull::Pending));
}

#[test]
fn per_key_fifo_order() {
    let mut mux: ChannelMux<u64> = ChannelMux::new();
    let mut a = match mux.add_key(5, 8) {
        Ok(s) => s,
        Err(_) => panic!("key 5 is fresh"),
    };
    let mut b = match mux.add_key(6, 8) {
        Ok(s) => s,
        Err(_) => panic!("key 6 is fresh"),
    };
    for i in 0..4u64 {
        assert!(a.try_send(100 + i).is_ok());
        assert!(b.try_send(200 + i).is_ok());
    }
    let mut from_a = Vec::new();
    let mut from_b = Vec::new();
    for _ in 0..8 {
        let (k, v) = expect_item(mux.try_pull());
        if k == 5 {
            from_a.push(v);
        } else {
            assert_eq!(k, 6);
            from_b.push(v);
        }
    }
    assert_eq!(from_a, vec![100, 101, 102, 103]);
    assert_eq!(from_b, vec![200, 201, 202, 203]);
    assert!(matches!(mux.try_pull(), Pull::Pending));
}

#[test]
fn coalesced_notifications_serve_each_value() {
    // Three notifications buffered for one key before any pull: exactly
    // three reads follow, each with the corresponding distinct value.
    let mut mux: ChannelMux<u64> = ChannelMux::new();
    let mut s = match mux.add_key(3, 4) {
        Ok(s) => s,
        Err(_) => panic!("key 3 is fresh"),
    };
    assert!(s.try_send(7).is_ok());
    assert!(s.try_send(8).is_ok());
    assert!(s.try_send(9).is_ok());
    assert_eq!(expect_item(mux.try_pull()), (3, 7));
    assert_eq!(expect_item(mux.try_pull()), (3, 8));
    assert_eq!(expect_item(mux.try_pull()), (3, 9));
    assert!(matches!(mux.try_pull(), Pull::Pending));
}

#[test]
fn backpressure_full_send_returns_value() {
    let mut mux: ChannelMux<u64> = ChannelMux::new();
    let mut s = match mux.add_key(7, 1) {
        Ok(s) => s,
        Err(_) => panic!("key 7 is fresh"),
    };
    let mut sent: u64 = 0;
    let full_value: u64;
    loop {
        match s.try_send(sent) {
            Ok(()) => {
                sent += 1;
                assert!(sent <= 100, "the bounded channel never reported full");
            },
            Err(SendError::Full(v)) => {
                full_value = v;
                break;
            },
            Err(_) => panic!("unexpected send failure"),
        }
    }
    assert!(sent >= 1);
    // The rejected value comes back unchanged; nothing was dropped.
    assert_eq!(full_value, sent);
    // A read frees space, after which the same value goes through.
    assert_eq!(expect_item(mux.try_pull()), (7, 0));
    assert!(s.try_send(full_value).is_ok());
}

#[test]
fn send_after_close_fails_closed() {
    let mut mux: ChannelMux<u64> = ChannelMux::new();
    let mut s = match mux.add_key(9, 2) {
        Ok(s) => s,
        Err(_) => panic!("key 9 is fresh"),
    };
    assert!(s.try_send(1).is_ok());
    s.close();
    s.close();  // idempotent
    match s.try_send(2) {
        Err(SendError::Closed(v)) => assert_eq!(v, 2),
        _ => panic!("a send after close must fail closed"),
    }
    // The value buffered before the close is still served.
    assert_eq!(expect_item(mux.try_pull()), (9, 1));
}

#[test]
fn send_after_consumer_drop_fails_closed() {
    let mut mux: ChannelMux<u64> = ChannelMux::new();
    let mut s = match mux.add_key(11, 2) {
        Ok(s) => s,
        Err(_) => panic!("key 11 is fresh"),
    };
    drop(mux);
    match s.try_send(5) {
        Err(SendError::Closed(v)) => assert_eq!(v, 5),
        _ => panic!("a send after the consumer is gone must fail closed"),
    }
}

#[test]
fn closed_key_does_not_disturb_others() {
    let mut mux: ChannelMux<u64> = ChannelMux::new();
    let mut a = match mux.add_key(1, 2) {
        Ok(s) => s,
        Err(_) => panic!("key 1 is fresh"),
    };
    let mut b = match mux.add_key(2, 2) {
        Ok(s) => s,
        Err(_) => panic!("key 2 is fresh"),
    };
    assert!(a.try_send(1).is_ok());
    a.close();
    drop(a);
    assert!(b.try_send(2).is_ok());
    // A's buffered value drains, B is served as usual.
    assert_eq!(expect_item(mux.try_pull()), (1, 1));
    assert_eq!(expect_item(mux.try_pull()), (2, 2));
    assert!(b.try_send(3).is_ok());
    assert_eq!(expect_item(mux.try_pull()), (2, 3));
}

#[test]
fn duplicate_key_is_refused() {
    let mut mux: ChannelMux<u64> = ChannelMux::new();
    let mut first = match mux.add_key(4, 2) {
        Ok(s) => s,
        Err(_) => panic!("key 4 is fresh"),
    };
    assert!(mux.add_key(4, 2).is_err());
    // The refusal leaves the first handle fully usable.
    assert!(first.try_send(44).is_ok());
    assert_eq!(expect_item(mux.try_pull()), (4, 44));
}

#[test]
fn empty_mux_is_exhausted() {
    let mut mux: ChannelMux<u64> = ChannelMux::new();
    assert!(matches!(mux.try_pull(), Pull::Exhausted));
    // Exhaustion is permanent: the next pull reports it again.
    assert!(matches!(mux.try_pull(), Pull::Exhausted));
}

#[test]
fn recorded_note_without_value_keeps_key_eligible() {
    // A notification handed in from outside with no value visible yet: the
    // key stays eligible (its readiness is re-queued at the tail) and the
    // value is served once it arrives.
    let mut mux: ChannelMux<u64> = ChannelMux::new();
    let mut s = match mux.add_key(8, 2) {
        Ok(s) => s,
        Err(_) => panic!("key 8 is fresh"),
    };
    mux.record_note(8);
    assert!(matches!(mux.try_pull(), Pull::Pending));
    assert!(s.try_send(77).is_ok());
    assert_eq!(expect_item(mux.try_pull()), (8, 77));
    // A note for an unregistered key is dropped.
    mux.record_note(99);
    assert!(matches!(mux.try_pull(), Pull::Pending));
}

#[test]
fn sender_reports_its_key() {
    let mut mux: ChannelMux<u64> = ChannelMux::new();
    let s = match mux.add_key(42, 1) {
        Ok(s) => s,
        Err(_) => panic!("key 42 is fresh"),
    };
    assert_eq!(s.key(), 42);
}
