use channelmux::ledger::Ledger;
use channelmux::handles::RustBoth;
use channelmux::handles::RustStatic;

#[test]
fn ledger_starts_empty() {
    let mut l = Ledger::new();
    assert!(l.is_empty());
    assert_eq!(l.len(), 0);
    assert_eq!(l.take_ready(), None);
}

#[test]
fn ledger_coalesces_and_rotates() {
    // Two notifications for key 1, one for key 2: key 1 is served first,
    // rejoins at the tail with one pending left, so key 2 comes second and
    // key 1 third.
    let mut l = Ledger::new();
    l.record(1);
    l.record(1);
    l.record(2);
    assert_eq!(l.len(), 2);
    assert_eq!(l.take_ready(), Some(1));
    assert_eq!(l.take_ready(), Some(2));
    assert_eq!(l.take_ready(), Some(1));
    assert_eq!(l.take_ready(), None);
    assert!(l.is_empty());
}

#[test]
fn ledger_keeps_insertion_order() {
    let mut l = Ledger::new();
    l.record(30);
    l.record(10);
    l.record(20);
    assert_eq!(l.take_ready(), Some(30));
    assert_eq!(l.take_ready(), Some(10));
    assert_eq!(l.take_ready(), Some(20));
    assert_eq!(l.take_ready(), None);
}

#[test]
fn ledger_purge_drops_only_the_key() {
    let mut l = Ledger::new();
    l.record(1);
    l.record(2);
    l.record(1);
    l.purge(1);
    assert_eq!(l.len(), 1);
    assert_eq!(l.take_ready(), Some(2));
    assert_eq!(l.take_ready(), None);
    // Purging an absent key changes nothing.
    l.record(3);
    l.purge(9);
    assert_eq!(l.take_ready(), Some(3));
}

#[test]
fn handles_construct() {
    let _b: RustBoth = RustBoth::new();
    let _s: RustStatic = RustStatic::new();
}
