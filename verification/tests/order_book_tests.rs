use l2_order_book::batched_deque::batched_deque::BatchedDeque;
use l2_order_book::order_book::errors::Errors;
use l2_order_book::order_book::order_book::OrderBook;
use l2_order_book::parsing::order_book_snapshot::Level as SnapshotLevel;
use l2_order_book::parsing::order_book_snapshot::OrderBookSnapshot;
use l2_order_book::parsing::order_book_update::Level as UpdateLevel;
use l2_order_book::parsing::order_book_update::OrderBookUpdate;
use l2_order_book::price::DecimalParts;
use num_traits::FromPrimitive;
use rust_decimal::Decimal;

// The price of the feed as the library takes it: the parts of the decimal
// that the float converts to, if it converts.
fn price(value: f64) -> Option<DecimalParts> {
    Decimal::from_f64(value).map(|d| DecimalParts {
        mantissa: d.mantissa(),
        scale: d.scale(),
    })
}

// The key of a price in the book.
fn ticks(value: f64) -> i128 {
    price(value).unwrap().to_ticks().unwrap()
}

fn snapshot_level(value: f64, qty: u64) -> SnapshotLevel {
    SnapshotLevel {
        price: price(value),
        qty,
    }
}

fn update_level(side: u8, value: f64, qty: u64) -> UpdateLevel {
    UpdateLevel {
        side,
        price: price(value),
        qty,
    }
}

fn create_test_snapshot(security_id: u64, seq_no: u64) -> OrderBookSnapshot {
    OrderBookSnapshot {
        timestamp: 1627846265,
        seq_no,
        security_id,
        bid1: snapshot_level(100.00, 10),
        ask1: snapshot_level(101.00, 15),
        bid2: snapshot_level(99.00, 20),
        ask2: snapshot_level(102.00, 25),
        bid3: snapshot_level(98.00, 30),
        ask3: snapshot_level(103.00, 35),
        bid4: snapshot_level(97.00, 40),
        ask4: snapshot_level(104.00, 45),
        bid5: snapshot_level(96.00, 50),
        ask5: snapshot_level(105.00, 55),
    }
}

fn make_update(
    deque: &mut BatchedDeque<UpdateLevel>,
    security_id: u64,
    seq_no: u64,
    levels: Vec<UpdateLevel>,
) -> OrderBookUpdate {
    let items: Vec<Result<UpdateLevel, ()>> = levels.into_iter().map(Ok).collect();
    OrderBookUpdate {
        timestamp: 1627846266,
        seq_no,
        security_id,
        updates: deque.push_back_batch(items).unwrap(),
    }
}

fn create_test_update(
    deque: &mut BatchedDeque<UpdateLevel>,
    security_id: u64,
    seq_no: u64,
) -> OrderBookUpdate {
    make_update(
        deque,
        security_id,
        seq_no,
        vec![update_level(0, 99.50, 25), update_level(1, 100.50, 30)],
    )
}

fn create_invalid_price_snapshot(security_id: u64, seq_no: u64) -> OrderBookSnapshot {
    let mut snapshot = create_test_snapshot(security_id, seq_no);
    // Make price invalid by setting it to a non-multiple of the tick
    snapshot.ask5.price = price(105.00 + 0.005);
    snapshot
}

#[test]
fn order_book_test_successful_update() {
    let security_id = 1001;
    let snapshot = create_test_snapshot(security_id, 100);
    let mut order_book = OrderBook::new(&snapshot).unwrap();
    let mut deque = BatchedDeque::new(10);

    let update = create_test_update(&mut deque, security_id, 101);
    let result = order_book.apply_update(&update, &deque);

    assert!(result.is_ok());
    assert_eq!(order_book.seq_no, 101);
    assert_eq!(order_book.timestamp, update.timestamp);

    assert_eq!(order_book.bids.get(&ticks(99.50)), Some(&25));
    assert_eq!(order_book.asks.get(&ticks(100.50)), Some(&30));
}

#[test]
fn order_book_test_sequence_number_gap() {
    let security_id = 1001;
    let snapshot = create_test_snapshot(security_id, 100);
    let mut order_book = OrderBook::new(&snapshot).unwrap();
    let mut deque = BatchedDeque::new(10);

    let update = create_test_update(&mut deque, security_id, 102);
    let result = order_book.apply_update(&update, &deque);

    assert!(matches!(result, Err(Errors::SequenceNumberGap)));

    assert_eq!(order_book.seq_no, 100);
    assert_eq!(order_book.timestamp, snapshot.timestamp);
}

#[test]
fn order_book_test_security_id_mismatch() {
    let security_id = 1001;
    let snapshot = create_test_snapshot(security_id, 100);
    let mut order_book = OrderBook::new(&snapshot).unwrap();
    let mut deque = BatchedDeque::new(10);

    let different_security_id = 1002;
    let update = create_test_update(&mut deque, different_security_id, 101);
    let result = order_book.apply_update(&update, &deque);

    assert!(matches!(result, Err(Errors::SecurityIdMismatch)));

    let different_snapshot = create_test_snapshot(different_security_id, 101);
    let snapshot_result = order_book.apply_snapshot(&different_snapshot);

    assert!(matches!(snapshot_result, Err(Errors::SecurityIdMismatch)));
}

#[test]
fn order_book_test_invalid_price_in_new_order_book() {
    let security_id = 1001;
    let snapshot = create_invalid_price_snapshot(security_id, 100);

    let result = OrderBook::new(&snapshot);

    assert!(matches!(result, Err(Errors::InvalidPrice(_, _))));
}

#[test]
fn order_book_test_invalid_price_in_snapshot() {
    let security_id = 1001;
    let snapshot = create_test_snapshot(security_id, 100);
    let mut order_book = OrderBook::new(&snapshot).unwrap();

    let invalid_snapshot = create_invalid_price_snapshot(security_id, 101);
    let result = order_book.apply_snapshot(&invalid_snapshot);

    assert!(matches!(result, Err(Errors::InvalidPrice(_, _))));

    assert_eq!(order_book.seq_no, 100);
}

#[test]
fn order_book_test_invalid_tick_price_in_update() {
    let security_id = 1001;
    let snapshot = create_test_snapshot(security_id, 100);
    let mut order_book = OrderBook::new(&snapshot).unwrap();
    let mut deque = BatchedDeque::new(10);

    let invalid_update = make_update(
        &mut deque,
        security_id,
        101,
        vec![update_level(0, 99.50, 25), update_level(1, 100.505, 30)],
    );

    let result = order_book.apply_update(&invalid_update, &deque);

    assert!(matches!(result, Err(Errors::InvalidPrice(_, _))));

    assert_eq!(order_book.seq_no, 100);
}

#[test]
fn order_book_test_invalid_nan_price_in_update() {
    let security_id = 1001;
    let snapshot = create_test_snapshot(security_id, 100);
    let mut order_book = OrderBook::new(&snapshot).unwrap();
    let mut deque = BatchedDeque::new(10);

    let invalid_update = make_update(
        &mut deque,
        security_id,
        101,
        vec![update_level(0, 99.50, 25), update_level(1, f64::NAN, 30)],
    );

    let result = order_book.apply_update(&invalid_update, &deque);

    assert!(matches!(result, Err(Errors::InvalidPrice(_, _))));

    assert_eq!(order_book.seq_no, 100);
}

#[test]
fn order_book_test_invalid_side_in_update() {
    let security_id = 1001;
    let snapshot = create_test_snapshot(security_id, 100);
    let mut order_book = OrderBook::new(&snapshot).unwrap();
    let mut deque = BatchedDeque::new(10);

    let invalid_update = make_update(
        &mut deque,
        security_id,
        101,
        vec![update_level(0, 99.50, 25), update_level(2, 100.50, 30)],
    );

    let result = order_book.apply_update(&invalid_update, &deque);

    assert!(matches!(result, Err(Errors::InvalidSide(_, _))));

    assert_eq!(order_book.seq_no, 100);
}

#[test]
fn order_book_test_old_snapshot_ignored() {
    let security_id = 1001;
    let snapshot = create_test_snapshot(security_id, 100);
    let mut order_book = OrderBook::new(&snapshot).unwrap();

    let old_snapshot = create_test_snapshot(security_id, 99);
    let result = order_book.apply_snapshot(&old_snapshot);

    assert!(matches!(result, Err(Errors::OldSequenceNumber)));

    assert_eq!(order_book.seq_no, 100);
}

#[test]
fn order_book_test_old_update_ignored() {
    let security_id = 1001;
    let snapshot = create_test_snapshot(security_id, 100);
    let mut order_book = OrderBook::new(&snapshot).unwrap();
    let mut deque = BatchedDeque::new(10);

    let old_update = create_test_update(&mut deque, security_id, 100);
    let result = order_book.apply_update(&old_update, &deque);

    assert!(matches!(result, Err(Errors::OldSequenceNumber)));

    assert_eq!(order_book.seq_no, 100);
}

#[test]
fn order_book_test_apply_snapshot_clears_previous_state() {
    let security_id = 1001;
    let snapshot = create_test_snapshot(security_id, 100);
    let mut order_book = OrderBook::new(&snapshot).unwrap();
    let mut deque = BatchedDeque::new(10);

    let update = create_test_update(&mut deque, security_id, 101);
    order_book.apply_update(&update, &deque).unwrap();

    let new_snapshot = create_test_snapshot(security_id, 102);
    order_book.apply_snapshot(&new_snapshot).unwrap();

    assert_eq!(order_book.seq_no, 102);
    assert_eq!(order_book.bids.len(), 5);
    assert_eq!(order_book.asks.len(), 5);

    assert!(!order_book.bids.contains_key(&ticks(99.50)));
}

#[test]
fn order_book_test_zero_quantity_removes_price_level() {
    let security_id = 1001;
    let snapshot = create_test_snapshot(security_id, 100);
    let mut order_book = OrderBook::new(&snapshot).unwrap();
    let mut deque = BatchedDeque::new(10);
    assert!(order_book.bids.contains_key(&ticks(100.00)));

    // This price exists in the initial snapshot; quantity 0 removes it
    let update = make_update(
        &mut deque,
        security_id,
        101,
        vec![update_level(0, 100.00, 0)],
    );

    order_book.apply_update(&update, &deque).unwrap();

    assert_eq!(order_book.seq_no, 101);
    assert!(!order_book.bids.contains_key(&ticks(100.00)));
}

#[test]
fn test_valid_update_after_invalid_update() {
    let security_id = 1001;
    let snapshot = create_test_snapshot(security_id, 100);
    let mut order_book = OrderBook::new(&snapshot).unwrap();
    let mut deque = BatchedDeque::new(10);

    let invalid_update = make_update(
        &mut deque,
        security_id,
        101,
        vec![update_level(0, 98.50, 25), update_level(1, 100.505, 30)],
    );

    let result = order_book.apply_update(&invalid_update, &deque);
    assert!(matches!(result, Err(Errors::InvalidPrice(_, _))));

    // Now apply a valid update with the same sequence number
    let valid_update = create_test_update(&mut deque, security_id, 101);
    let result = order_book.apply_update(&valid_update, &deque);
    assert!(result.is_ok());

    assert_eq!(order_book.seq_no, 101);

    assert!(order_book.bids.contains_key(&ticks(99.50)));

    // The 98.50 level of the invalid update is not in the bids
    assert!(!order_book.bids.contains_key(&ticks(98.50)));
}

#[test]
fn test_valid_snapshot_after_invalid_snapshot() {
    let security_id = 1001;
    let snapshot = create_test_snapshot(security_id, 100);
    let mut order_book = OrderBook::new(&snapshot).unwrap();

    let mut invalid_snapshot = create_test_snapshot(security_id, 101);
    invalid_snapshot.ask4.price = price(104.01);
    invalid_snapshot.bid4.price = price(97.01);
    invalid_snapshot.ask5.price = price(f64::NAN);
    let result = order_book.apply_snapshot(&invalid_snapshot);
    assert!(matches!(result, Err(Errors::InvalidPrice(_, _))));

    let valid_snapshot = create_test_snapshot(security_id, 101);
    let result = order_book.apply_snapshot(&valid_snapshot);
    assert!(result.is_ok());

    assert_eq!(order_book.seq_no, 101);
    assert_eq!(order_book.bids.len(), 5);
    assert_eq!(order_book.asks.len(), 5);

    assert!(!order_book.asks.contains_key(&ticks(104.01)));
    assert!(!order_book.bids.contains_key(&ticks(97.01)));
}

#[test]
fn snapshot_then_sequential_update() {
    let mut snapshot = create_test_snapshot(1001, 100);
    snapshot.bid1 = snapshot_level(100.00, 10);
    let mut order_book = OrderBook::new(&snapshot).unwrap();
    let mut deque = BatchedDeque::new(10);
    let update = make_update(&mut deque, 1001, 101, vec![update_level(0, 100.00, 0)]);
    assert!(order_book.apply_update(&update, &deque).is_ok());
    assert_eq!(order_book.seq_no, 101);
    assert!(!order_book.bids.contains_key(&10000));
    assert_eq!(order_book.bids.len(), 4);
}

#[test]
fn invalid_tick_leaves_book_as_it_was() {
    let snapshot = create_test_snapshot(1001, 100);
    let mut order_book = OrderBook::new(&snapshot).unwrap();
    let bids_before = order_book.bids.clone();
    let asks_before = order_book.asks.clone();
    let mut deque = BatchedDeque::new(10);
    let update = make_update(
        &mut deque,
        1001,
        101,
        vec![update_level(0, 95.00, 7), update_level(1, 100.505, 30)],
    );
    match order_book.apply_update(&update, &deque) {
        Err(Errors::InvalidPrice(info, text)) => {
            assert_eq!(info.security_id, 1001);
            assert_eq!(info.seq_no, 101);
            assert_eq!(text, "The price 100.505 is not a multiple of 0.01");
        }
        other => panic!("unexpected result {:?}", other),
    }
    assert_eq!(order_book.seq_no, 100);
    assert_eq!(order_book.timestamp, 1627846265);
    assert_eq!(order_book.bids, bids_before);
    assert_eq!(order_book.asks, asks_before);
}

#[test]
fn invalid_side_reports_the_side() {
    let snapshot = create_test_snapshot(1001, 100);
    let mut order_book = OrderBook::new(&snapshot).unwrap();
    let mut deque = BatchedDeque::new(10);
    let update = make_update(&mut deque, 1001, 101, vec![update_level(7, 95.00, 7)]);
    match order_book.apply_update(&update, &deque) {
        Err(Errors::InvalidSide(info, text)) => {
            assert_eq!(info.security_id, 1001);
            assert_eq!(info.seq_no, 101);
            assert_eq!(text, "7");
        }
        other => panic!("unexpected result {:?}", other),
    }
}

#[test]
fn price_is_checked_before_side() {
    let snapshot = create_test_snapshot(1001, 100);
    let mut order_book = OrderBook::new(&snapshot).unwrap();
    let mut deque = BatchedDeque::new(10);
    let update = make_update(&mut deque, 1001, 101, vec![update_level(7, 95.005, 7)]);
    assert!(matches!(
        order_book.apply_update(&update, &deque),
        Err(Errors::InvalidPrice(_, _))
    ));
}

#[test]
fn unconvertible_price_reports_it() {
    let snapshot = create_test_snapshot(1001, 100);
    let mut order_book = OrderBook::new(&snapshot).unwrap();
    let mut deque = BatchedDeque::new(10);
    let update = make_update(&mut deque, 1001, 101, vec![update_level(0, f64::INFINITY, 7)]);
    match order_book.apply_update(&update, &deque) {
        Err(Errors::InvalidPrice(_, text)) => {
            assert_eq!(text, "Failed to convert the price to a decimal number");
        }
        other => panic!("unexpected result {:?}", other),
    }
}

#[test]
fn ticks_of_decimal_parts() {
    assert_eq!(DecimalParts { mantissa: 10050, scale: 2 }.to_ticks(), Some(10050));
    assert_eq!(DecimalParts { mantissa: 1005, scale: 1 }.to_ticks(), Some(10050));
    assert_eq!(DecimalParts { mantissa: 100, scale: 0 }.to_ticks(), Some(10000));
    assert_eq!(DecimalParts { mantissa: 100500, scale: 3 }.to_ticks(), Some(10050));
    assert_eq!(DecimalParts { mantissa: 100505, scale: 3 }.to_ticks(), None);
    assert_eq!(DecimalParts { mantissa: -100500, scale: 3 }.to_ticks(), Some(-10050));
    assert_eq!(DecimalParts { mantissa: -100505, scale: 3 }.to_ticks(), None);
    assert_eq!(DecimalParts { mantissa: 0, scale: 28 }.to_ticks(), Some(0));
    assert_eq!(DecimalParts { mantissa: 1, scale: 29 }.to_ticks(), None);
    assert_eq!(
        DecimalParts { mantissa: 79228162514264337593543950336, scale: 0 }.to_ticks(),
        None
    );
    assert_eq!(
        DecimalParts { mantissa: 79228162514264337593543950335, scale: 0 }.to_ticks(),
        Some(7922816251426433759354395033500)
    );
    assert_eq!(OrderBook::price_tick(), DecimalParts { mantissa: 1, scale: 2 });
}

#[test]
fn ticks_agree_with_decimal_remainder() {
    let tick = Decimal::new(1, 2);
    for value in [0.0, 0.01, 0.015, 99.5, 100.505, 104.01, 1e-7, 123456.78, -3.25, -3.255] {
        let decimal = Decimal::from_f64(value).unwrap();
        let parts = DecimalParts {
            mantissa: decimal.mantissa(),
            scale: decimal.scale(),
        };
        assert_eq!(parts.to_ticks().is_some(), (decimal % tick).is_zero());
        if let Some(t) = parts.to_ticks() {
            assert_eq!(Decimal::from_i128_with_scale(t, 2), decimal);
        }
    }
}

#[test]
fn snapshot_levels_of_quantity_zero_are_left_out() {
    let mut snapshot = create_test_snapshot(1001, 100);
    snapshot.bid3.qty = 0;
    snapshot.ask2.qty = 0;
    let order_book = OrderBook::new(&snapshot).unwrap();
    assert_eq!(order_book.bids.len(), 4);
    assert_eq!(order_book.asks.len(), 4);
    assert!(!order_book.asks.contains_key(&ticks(102.00)));
    assert!(!order_book.bids.contains_key(&ticks(98.00)));
    assert_eq!(order_book.asks.get(&ticks(105.00)), Some(&55));
}

#[test]
fn snapshot_levels_of_quantity_zero_are_checked_too() {
    let mut order_book = OrderBook::new(&create_test_snapshot(1001, 100)).unwrap();

    // No decimal at an empty level
    let mut snapshot = create_test_snapshot(1001, 101);
    snapshot.ask5 = snapshot_level(f64::NAN, 0);
    let result = order_book.apply_snapshot(&snapshot);
    assert!(matches!(result, Err(Errors::InvalidPrice(_, _))));
    assert_eq!(order_book.seq_no, 100);
    assert_eq!(order_book.asks.len(), 5);

    // Off the tick at an empty level
    let mut snapshot = create_test_snapshot(1001, 101);
    snapshot.bid3 = snapshot_level(98.005, 0);
    assert!(matches!(
        order_book.apply_snapshot(&snapshot),
        Err(Errors::InvalidPrice(_, _))
    ));
    assert!(matches!(
        OrderBook::new(&snapshot),
        Err(Errors::InvalidPrice(_, _))
    ));
    assert_eq!(order_book.seq_no, 100);
    assert_eq!(order_book.bids.len(), 5);
}

#[test]
fn sequence_number_follows_applied_updates() {
    let snapshot = create_test_snapshot(1001, 100);
    let mut order_book = OrderBook::new(&snapshot).unwrap();
    let mut deque = BatchedDeque::new(10);
    let mut applied = 0;
    for seq_no in [101, 103, 102, 102, 103, 104, 99] {
        let update = create_test_update(&mut deque, 1001, seq_no);
        if order_book.apply_update(&update, &deque).is_ok() {
            applied += 1;
        }
    }
    assert_eq!(applied, 4);
    assert_eq!(order_book.seq_no, 100 + applied);
    assert!(order_book.bids.values().all(|&qty| qty > 0));
    assert!(order_book.asks.values().all(|&qty| qty > 0));
}
