use means_to_an_end::codec::{encode_request, MalformedFrame, Request};
use means_to_an_end::ledger::{process_frame, Ledger};

fn frame_of(req: &Request) -> [u8; 9] {
    let bytes = encode_request(req);
    let mut data = [0u8; 9];
    data.copy_from_slice(&bytes);
    data
}

#[test]
fn scenario_three_observations() {
    let mut l = Ledger::new();
    l.insert(1000, 100);
    l.insert(1001, 200);
    l.insert(1002, 300);
    assert_eq!(l.query(1000, 1002), 200);
    assert_eq!(l.query(1000, 1000), 100);
    assert_eq!(l.query(1003, 2000), 0);
    l.insert(-5, -100);
    assert_eq!(l.query(-5, -5), -100);
}

#[test]
fn insert_out_of_order() {
    let mut l = Ledger::new();
    l.insert(30, 3);
    l.insert(10, 1);
    l.insert(20, 2);
    assert_eq!(l.query(10, 30), 2);
    assert_eq!(l.query(10, 15), 1);
    assert_eq!(l.query(25, 35), 3);
    assert_eq!(l.query(15, 25), 2);
}

#[test]
fn reinsert_replaces_prior_price() {
    let mut l = Ledger::new();
    l.insert(77, 5);
    l.insert(77, 9);
    assert_eq!(l.query(77, 77), 9);
    assert_eq!(l.query(0, 100), 9);
}

#[test]
fn empty_ledger_query_is_zero() {
    let l = Ledger::new();
    assert_eq!(l.query(0, 100), 0);
    assert_eq!(l.query(i32::MIN, i32::MAX), 0);
}

#[test]
fn reversed_window_is_zero() {
    let mut l = Ledger::new();
    l.insert(5, 123);
    assert_eq!(l.query(6, 4), 0);
    assert_eq!(l.query(5, 4), 0);
}

#[test]
fn unmatched_window_is_zero() {
    let mut l = Ledger::new();
    l.insert(5, 123);
    l.insert(50, 456);
    assert_eq!(l.query(6, 49), 0);
}

#[test]
fn mean_truncates_toward_zero() {
    let mut l = Ledger::new();
    l.insert(1, -5);
    l.insert(2, -6);
    // -11 / 2 truncates toward zero: -5, not -6
    assert_eq!(l.query(1, 2), -5);
    let mut m = Ledger::new();
    m.insert(1, 5);
    m.insert(2, 6);
    assert_eq!(m.query(1, 2), 5);
}

#[test]
fn large_magnitude_sums() {
    let mut l = Ledger::new();
    for t in 0..8 {
        l.insert(t, i32::MAX);
    }
    assert_eq!(l.query(0, 7), i32::MAX);
    let mut m = Ledger::new();
    for t in 0..8 {
        m.insert(t, i32::MIN);
    }
    assert_eq!(m.query(0, 7), i32::MIN);
}

#[test]
fn ledgers_are_isolated() {
    let mut a = Ledger::new();
    let mut b = Ledger::new();
    a.insert(1, 10);
    b.insert(1, 99);
    b.insert(2, 77);
    assert_eq!(a.query(1, 2), 10);
    assert_eq!(b.query(1, 2), 88);
    a.insert(2, 20);
    assert_eq!(a.query(1, 2), 15);
    assert_eq!(b.query(1, 2), 88);
}

#[test]
fn process_frame_dispatches() {
    let mut l = Ledger::new();
    let r = process_frame(&mut l, &frame_of(&Request::Insert(1000, 100)));
    assert_eq!(r.unwrap().price, 0);
    let r = process_frame(&mut l, &frame_of(&Request::Insert(1001, 200)));
    assert_eq!(r.unwrap().price, 0);
    let r = process_frame(&mut l, &frame_of(&Request::Query(1000, 1001)));
    assert_eq!(r.unwrap().price, 150);
}

#[test]
fn process_frame_rejects_malformed_tag_without_mutation() {
    let mut l = Ledger::new();
    l.insert(7, 70);
    let mut data = frame_of(&Request::Insert(8, 80));
    data[0] = b'X';
    assert_eq!(process_frame(&mut l, &data), Err(MalformedFrame));
    // the rejected frame changed nothing: timestamp 8 is still unrecorded
    assert_eq!(l.query(7, 8), 70);
    assert_eq!(l.query(8, 8), 0);
}
