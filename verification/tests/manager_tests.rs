use l2_order_book::batched_deque::batched_deque::BatchedDeque;
use l2_order_book::order_book::errors::report_line;
use l2_order_book::order_book::errors::Errors;
use l2_order_book::order_book::errors::UpdateMessageInfo;
use l2_order_book::order_book::manager::Manager;
use l2_order_book::parsing::order_book_snapshot::Level as SnapshotLevel;
use l2_order_book::parsing::order_book_snapshot::OrderBookSnapshot;
use l2_order_book::parsing::order_book_update::Level as UpdateLevel;
use l2_order_book::parsing::order_book_update::OrderBookUpdate;
use l2_order_book::price::DecimalParts;
use num_traits::FromPrimitive;
use rust_decimal::Decimal;

fn manager_price(value: f64) -> Option<DecimalParts> {
    Decimal::from_f64(value).map(|d| DecimalParts {
        mantissa: d.mantissa(),
        scale: d.scale(),
    })
}

fn manager_snapshot_level(value: f64, qty: u64) -> SnapshotLevel {
    SnapshotLevel {
        price: manager_price(value),
        qty,
    }
}

fn manager_test_snapshot(security_id: u64, seq_no: u64) -> OrderBookSnapshot {
    OrderBookSnapshot {
        timestamp: 1627846265,
        seq_no,
        security_id,
        bid1: manager_snapshot_level(100.00, 10),
        ask1: manager_snapshot_level(101.00, 15),
        bid2: manager_snapshot_level(99.00, 20),
        ask2: manager_snapshot_level(102.00, 25),
        bid3: manager_snapshot_level(98.00, 30),
        ask3: manager_snapshot_level(103.00, 35),
        bid4: manager_snapshot_level(97.00, 40),
        ask4: manager_snapshot_level(104.00, 45),
        bid5: manager_snapshot_level(96.00, 50),
        ask5: manager_snapshot_level(105.00, 55),
    }
}

fn manager_test_update(
    deque: &mut BatchedDeque<UpdateLevel>,
    security_id: u64,
    seq_no: u64,
) -> OrderBookUpdate {
    let items: Vec<Result<UpdateLevel, ()>> = vec![
        Ok(UpdateLevel {
            side: 0,
            price: manager_price(99.00),
            qty: 25,
        }),
        Ok(UpdateLevel {
            side: 1,
            price: manager_price(101.00),
            qty: 30,
        }),
    ];
    OrderBookUpdate {
        timestamp: 1627846266,
        seq_no,
        security_id,
        updates: deque.push_back_batch(items).unwrap(),
    }
}

#[test]
fn manager_test_apply_snapshot_to_new_security_id() {
    let mut manager = Manager::default();
    let mut deque = BatchedDeque::new(10);
    let security_id = 1001;
    let snapshot = manager_test_snapshot(security_id, 100);

    let result = manager.apply_snapshot(&snapshot, &mut deque);

    assert!(result.is_ok());
    assert!(manager.buffered_order_books.contains_key(&security_id));
    assert_eq!(manager.buffered_order_books.len(), 1);
}

#[test]
fn manager_test_apply_snapshot_to_existing_security_id() {
    let mut manager = Manager::default();
    let mut deque = BatchedDeque::new(10);
    let security_id = 1001;

    let snapshot1 = manager_test_snapshot(security_id, 100);
    let _ = manager.apply_snapshot(&snapshot1, &mut deque);

    let snapshot2 = manager_test_snapshot(security_id, 101);
    let result = manager.apply_snapshot(&snapshot2, &mut deque);

    assert!(result.is_ok());
    assert_eq!(manager.buffered_order_books.len(), 1);
}

#[test]
fn manager_test_apply_update_to_nonexistent_security_id() {
    let mut manager = Manager::default();
    let mut deque = BatchedDeque::new(10);
    let security_id = 1001;
    let update = manager_test_update(&mut deque, security_id, 100);

    let result = manager.apply_update(update, &mut deque);

    assert!(matches!(result, Err(Errors::OrderBookNotFound)));
    assert!(manager.buffered_order_books.is_empty());
    // The update is done with: its batch has left the arena
    assert_eq!(deque.state.len(), 0);
}

#[test]
fn manager_test_apply_update_to_existing_security_id() {
    let mut manager = Manager::default();
    let mut deque = BatchedDeque::new(10);
    let security_id = 1001;

    let snapshot = manager_test_snapshot(security_id, 100);
    let _ = manager.apply_snapshot(&snapshot, &mut deque);

    let update = manager_test_update(&mut deque, security_id, 101);
    let result = manager.apply_update(update, &mut deque);

    assert!(result.is_ok());
    assert_eq!(
        manager.buffered_order_books[&security_id].order_book.seq_no,
        101
    );
}

#[test]
fn manager_test_multiple_security_ids() {
    let mut manager = Manager::default();
    let mut deque1 = BatchedDeque::new(10);
    let mut deque2 = BatchedDeque::new(10);

    let security_id1 = 1001;
    let security_id2 = 1002;

    let snapshot1 = manager_test_snapshot(security_id1, 100);
    let snapshot2 = manager_test_snapshot(security_id2, 200);

    let result1 = manager.apply_snapshot(&snapshot1, &mut deque1);
    let result2 = manager.apply_snapshot(&snapshot2, &mut deque2);

    assert!(result1.is_ok());
    assert!(result2.is_ok());
    assert_eq!(manager.buffered_order_books.len(), 2);
    assert!(manager.buffered_order_books.contains_key(&security_id1));
    assert!(manager.buffered_order_books.contains_key(&security_id2));
    assert_eq!(manager.len(), 2);
    assert!(manager.contains(security_id2));
    assert!(!manager.contains(1003));
}

#[test]
fn manager_refuses_bad_first_snapshot() {
    let mut manager = Manager::default();
    let mut deque = BatchedDeque::new(10);
    let mut snapshot = manager_test_snapshot(1001, 100);
    snapshot.bid2.price = manager_price(99.005);
    assert!(matches!(
        manager.apply_snapshot(&snapshot, &mut deque),
        Err(Errors::InvalidPrice(_, _))
    ));
    assert!(manager.buffered_order_books.is_empty());
}

#[test]
fn manager_update_touches_one_book_only() {
    let mut manager = Manager::default();
    let mut deque1 = BatchedDeque::new(10);
    let mut deque2 = BatchedDeque::new(10);
    manager
        .apply_snapshot(&manager_test_snapshot(1001, 100), &mut deque1)
        .unwrap();
    manager
        .apply_snapshot(&manager_test_snapshot(1002, 200), &mut deque2)
        .unwrap();
    let update = manager_test_update(&mut deque2, 1002, 201);
    manager.apply_update(update, &mut deque2).unwrap();
    assert_eq!(manager.buffered_order_books[&1001].order_book.seq_no, 100);
    assert_eq!(manager.buffered_order_books[&1002].order_book.seq_no, 201);
}

#[test]
fn errors_are_reported_or_passed_over() {
    let price = Errors::InvalidPrice(
        UpdateMessageInfo {
            security_id: 1001,
            seq_no: 101,
        },
        "The price 100.505 is not a multiple of 0.01".to_string(),
    );
    assert_eq!(
        report_line("Update", &price).unwrap(),
        "Update for security 1001 with seq_no 101 has invalid price: The price 100.505 is not a multiple of 0.01. The record will be ignored."
    );
    let side = Errors::InvalidSide(
        UpdateMessageInfo {
            security_id: 7,
            seq_no: 0,
        },
        "2".to_string(),
    );
    assert_eq!(
        report_line("Snapshot", &side).unwrap(),
        "Snapshot for security 7 with seq_no 0 has invalid side: 2. The record will be ignored."
    );
    assert_eq!(
        report_line("Update", &Errors::SecurityIdMismatch).unwrap(),
        "Internal error: Security ID mismatch."
    );
    assert_eq!(report_line("Update", &Errors::OrderBookNotFound), None);
    assert_eq!(report_line("Update", &Errors::SequenceNumberGap), None);
    assert_eq!(report_line("Update", &Errors::OldSequenceNumber), None);
}

#[test]
fn manager_knows_whether_the_waiting_updates_are_held() {
    let mut manager = Manager::default();
    let mut deque = BatchedDeque::new(10);
    assert!(manager.holds_pending(1001, &deque));
    manager
        .apply_snapshot(&manager_test_snapshot(1001, 100), &mut deque)
        .unwrap();
    let ahead = manager_test_update(&mut deque, 1001, 105);
    manager.apply_update(ahead, &mut deque).unwrap_err();
    assert!(manager.holds_pending(1001, &deque));
    // Another arena does not hold the waiting update
    let other: BatchedDeque<UpdateLevel> = BatchedDeque::new(10);
    assert!(!manager.holds_pending(1001, &other));
    assert!(manager.holds_pending(2002, &other));
}
