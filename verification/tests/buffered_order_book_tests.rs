use l2_order_book::batched_deque::batched_deque::BatchedDeque;
use l2_order_book::order_book::buffered_order_book::BufferedOrderBook;
use l2_order_book::order_book::errors::Errors;
use l2_order_book::order_book::order_book::OrderBook;
use l2_order_book::parsing::order_book_snapshot::Level as SnapshotLevel;
use l2_order_book::parsing::order_book_snapshot::OrderBookSnapshot;
use l2_order_book::parsing::order_book_update::Level as UpdateLevel;
use l2_order_book::parsing::order_book_update::OrderBookUpdate;
use l2_order_book::price::DecimalParts;
use num_traits::FromPrimitive;
use rust_decimal::Decimal;

fn buffered_price(value: f64) -> Option<DecimalParts> {
    Decimal::from_f64(value).map(|d| DecimalParts {
        mantissa: d.mantissa(),
        scale: d.scale(),
    })
}

fn buffered_ticks(value: f64) -> i128 {
    buffered_price(value).unwrap().to_ticks().unwrap()
}

fn buffered_snapshot_level(value: f64, qty: u64) -> SnapshotLevel {
    SnapshotLevel {
        price: buffered_price(value),
        qty,
    }
}

fn buffered_test_snapshot(security_id: u64, seq_no: u64) -> OrderBookSnapshot {
    OrderBookSnapshot {
        timestamp: 1627846265,
        seq_no,
        security_id,
        bid1: buffered_snapshot_level(100.00, 10),
        ask1: buffered_snapshot_level(101.00, 15),
        bid2: buffered_snapshot_level(99.00, 20),
        ask2: buffered_snapshot_level(102.00, 25),
        bid3: buffered_snapshot_level(98.00, 30),
        ask3: buffered_snapshot_level(103.00, 35),
        bid4: buffered_snapshot_level(97.00, 40),
        ask4: buffered_snapshot_level(104.00, 45),
        bid5: buffered_snapshot_level(96.00, 50),
        ask5: buffered_snapshot_level(105.00, 55),
    }
}

fn buffered_update_of(
    deque: &mut BatchedDeque<UpdateLevel>,
    security_id: u64,
    seq_no: u64,
    levels: Vec<(u8, f64, u64)>,
) -> OrderBookUpdate {
    let items: Vec<Result<UpdateLevel, ()>> = levels
        .into_iter()
        .map(|(side, value, qty)| {
            Ok(UpdateLevel {
                side,
                price: buffered_price(value),
                qty,
            })
        })
        .collect();
    OrderBookUpdate {
        timestamp: 1627846266,
        seq_no,
        security_id,
        updates: deque.push_back_batch(items).unwrap(),
    }
}

fn buffered_test_update(
    deque: &mut BatchedDeque<UpdateLevel>,
    security_id: u64,
    seq_no: u64,
) -> OrderBookUpdate {
    buffered_update_of(
        deque,
        security_id,
        seq_no,
        vec![(0, 99.50, 25), (1, 100.50, 30)],
    )
}

#[test]
fn buffered_order_book_test_buffered_successful_update() {
    let security_id = 1001;
    let snapshot = buffered_test_snapshot(security_id, 100);
    let order_book = OrderBook::new(&snapshot).unwrap();
    let mut buffered_book = BufferedOrderBook::new(order_book);
    let mut deque = BatchedDeque::new(10);

    let update = buffered_test_update(&mut deque, security_id, 101);
    let result = buffered_book.apply_update(update, &mut deque);

    assert!(result.is_ok());
    assert_eq!(buffered_book.order_book.seq_no, 101);
    assert!(buffered_book.pending_updates.is_empty());
    // The update is done with: its batch has left the arena
    assert_eq!(deque.state.len(), 0);
    assert_eq!(deque.state.start_index(), 2);
}

#[test]
fn buffered_order_book_test_buffered_sequence_number_gap() {
    let security_id = 1001;
    let snapshot = buffered_test_snapshot(security_id, 100);
    let order_book = OrderBook::new(&snapshot).unwrap();
    let mut buffered_book = BufferedOrderBook::new(order_book);
    let mut deque = BatchedDeque::new(10);

    let update = buffered_test_update(&mut deque, security_id, 102);
    let result = buffered_book.apply_update(update, &mut deque);

    assert!(matches!(result, Err(Errors::SequenceNumberGap)));
    assert_eq!(buffered_book.order_book.seq_no, 100);
    assert_eq!(buffered_book.pending_updates.len(), 1);
    assert!(buffered_book.pending_updates.contains_key(&102));
    // The update waits: its batch stays in the arena
    assert_eq!(deque.state.len(), 2);
}

#[test]
fn buffered_order_book_test_buffered_apply_snapshot() {
    let security_id = 1001;
    let snapshot1 = buffered_test_snapshot(security_id, 100);
    let order_book = OrderBook::new(&snapshot1).unwrap();
    let mut buffered_book = BufferedOrderBook::new(order_book);
    let mut deque = BatchedDeque::new(10);

    let update = buffered_test_update(&mut deque, security_id, 102);
    let result = buffered_book.apply_update(update, &mut deque);
    assert!(matches!(result, Err(Errors::SequenceNumberGap)));

    let update = buffered_test_update(&mut deque, security_id, 104);
    let result = buffered_book.apply_update(update, &mut deque);
    assert!(matches!(result, Err(Errors::SequenceNumberGap)));

    // Apply a new snapshot with a higher sequence number
    let snapshot2 = buffered_test_snapshot(security_id, 103);
    let result = buffered_book.apply_snapshot(&snapshot2, &mut deque);

    // Should apply pending update after snapshot
    assert!(result.is_ok());
    assert_eq!(buffered_book.order_book.seq_no, 104);
    assert!(buffered_book.pending_updates.is_empty());
    assert_eq!(deque.state.len(), 0);
    assert_eq!(deque.state.start_index(), 4);
}

#[test]
fn buffered_order_book_test_buffered_multiple_pending_updates() {
    let security_id = 1001;
    let snapshot = buffered_test_snapshot(security_id, 100);
    let order_book = OrderBook::new(&snapshot).unwrap();
    let mut buffered_book = BufferedOrderBook::new(order_book);
    let mut deque = BatchedDeque::new(10);

    let update1 = buffered_test_update(&mut deque, security_id, 102);
    let update2 = buffered_test_update(&mut deque, security_id, 103);
    let update3 = buffered_test_update(&mut deque, security_id, 104);

    buffered_book.apply_update(update1, &mut deque).unwrap_err();
    buffered_book.apply_update(update2, &mut deque).unwrap_err();
    buffered_book.apply_update(update3, &mut deque).unwrap_err();

    assert_eq!(buffered_book.pending_updates.len(), 3);

    // Apply the missing update
    let fill_gap_update = buffered_test_update(&mut deque, security_id, 101);
    let result = buffered_book.apply_update(fill_gap_update, &mut deque);

    // Should apply all pending updates
    assert!(result.is_ok());
    assert_eq!(buffered_book.order_book.seq_no, 104);
    assert!(buffered_book.pending_updates.is_empty());
    assert_eq!(deque.state.len(), 0);
    assert_eq!(deque.state.start_index(), 8);
}

#[test]
fn buffered_order_book_test_buffered_max_pending_updates() {
    let security_id = 1001;
    let snapshot = buffered_test_snapshot(security_id, 100);
    let order_book = OrderBook::new(&snapshot).unwrap();
    let mut buffered_book = BufferedOrderBook::new(order_book);
    let mut deque = BatchedDeque::new(10);

    // Add MAX_PENDING_UPDATES pending updates
    let start_seq = 102;
    for i in 0..BufferedOrderBook::MAX_PENDING_UPDATES {
        let seq_no = start_seq + i as u64;
        let update = buffered_test_update(&mut deque, security_id, seq_no);
        buffered_book.apply_update(update, &mut deque).unwrap_err();
    }

    assert_eq!(
        buffered_book.pending_updates.len(),
        BufferedOrderBook::MAX_PENDING_UPDATES
    );
    assert_eq!(deque.state.len(), 2 * BufferedOrderBook::MAX_PENDING_UPDATES);

    // One more update causes all previous updates to be dropped
    let new_seq_no = start_seq + BufferedOrderBook::MAX_PENDING_UPDATES as u64;
    let new_update = buffered_test_update(&mut deque, security_id, new_seq_no);
    buffered_book.apply_update(new_update, &mut deque).unwrap_err();

    // Should now just have the single new update
    assert_eq!(buffered_book.pending_updates.len(), 1);
    assert!(buffered_book.pending_updates.contains_key(&new_seq_no));
    assert!(buffered_book.pending_updates.len() <= BufferedOrderBook::MAX_PENDING_UPDATES);
    // The dropped updates gave their batches back
    assert_eq!(deque.state.len(), 2);
    assert_eq!(
        deque.state.start_index(),
        2 * BufferedOrderBook::MAX_PENDING_UPDATES
    );
}

#[test]
fn buffered_order_book_test_buffered_old_update_ignored() {
    let security_id = 1001;
    let snapshot = buffered_test_snapshot(security_id, 100);
    let order_book = OrderBook::new(&snapshot).unwrap();
    let mut buffered_book = BufferedOrderBook::new(order_book);
    let mut deque = BatchedDeque::new(10);

    let old_update = buffered_test_update(&mut deque, security_id, 99);
    let result = buffered_book.apply_update(old_update, &mut deque);

    assert!(matches!(result, Err(Errors::OldSequenceNumber)));
    assert_eq!(buffered_book.order_book.seq_no, 100);
    assert!(buffered_book.pending_updates.is_empty());
    assert_eq!(deque.state.len(), 0);
}

#[test]
fn buffered_order_book_test_buffered_partial_update_application() {
    let security_id = 1001;
    let snapshot = buffered_test_snapshot(security_id, 100);
    let order_book = OrderBook::new(&snapshot).unwrap();
    let mut buffered_book = BufferedOrderBook::new(order_book);
    let mut deque = BatchedDeque::new(10);

    let update1 = buffered_test_update(&mut deque, security_id, 102);
    let update2 = buffered_test_update(&mut deque, security_id, 103);
    let update3 = buffered_test_update(&mut deque, security_id, 105);

    buffered_book.apply_update(update1, &mut deque).unwrap_err();
    buffered_book.apply_update(update2, &mut deque).unwrap_err();
    buffered_book.apply_update(update3, &mut deque).unwrap_err();

    assert_eq!(buffered_book.pending_updates.len(), 3);

    // Apply the first missing update
    let fill_first_gap = buffered_test_update(&mut deque, security_id, 101);
    let result = buffered_book.apply_update(fill_first_gap, &mut deque);

    // Applied up to seq_no 103
    assert!(result.is_ok());
    assert_eq!(buffered_book.order_book.seq_no, 103);

    // The update with seq_no 105 is still pending
    assert_eq!(buffered_book.pending_updates.len(), 1);
    assert!(buffered_book.pending_updates.contains_key(&105));
    assert_eq!(buffered_book.pending_len(), 1);
    assert!(buffered_book.is_pending(105));
    assert!(!buffered_book.is_pending(102));
    // Its batch stands at the front of the arena, live; behind it lies the
    // retired batch of the update that closed the gap.
    assert_eq!(deque.state.start_index(), 4);
    assert_eq!(deque.state.len(), 4);
    assert!(!deque.state.header(0).unwrap().is_removed);
    assert!(deque.state.header(2).unwrap().is_removed);
}

#[test]
fn test_buffered_duplicate_update_handling() {
    let security_id = 1001;
    let snapshot = buffered_test_snapshot(security_id, 100);
    let order_book = OrderBook::new(&snapshot).unwrap();
    let mut buffered_book = BufferedOrderBook::new(order_book);

    let mut deque = BatchedDeque::new(10);
    let update102 = buffered_update_of(&mut deque, security_id, 102, vec![(0, 99.51, 100)]);
    let result = buffered_book.apply_update(update102, &mut deque);
    // Should be added to pending updates
    assert!(matches!(result, Err(Errors::SequenceNumberGap)));
    assert_eq!(buffered_book.pending_updates.len(), 1);
    assert!(buffered_book.pending_updates.contains_key(&102));

    let update103 = buffered_update_of(&mut deque, security_id, 103, vec![(0, 99.50, 200)]);
    let result = buffered_book.apply_update(update103, &mut deque);
    assert!(matches!(result, Err(Errors::SequenceNumberGap)));
    assert_eq!(buffered_book.pending_updates.len(), 2);
    assert!(buffered_book.pending_updates.contains_key(&102));
    assert!(buffered_book.pending_updates.contains_key(&103));

    // Duplicate update with the same sequence number
    let update103 = buffered_update_of(&mut deque, security_id, 103, vec![(0, 99.50, 200)]);
    let result = buffered_book.apply_update(update103, &mut deque);
    // Still should have only two pending updates
    assert!(matches!(result, Err(Errors::SequenceNumberGap)));
    assert_eq!(buffered_book.pending_updates.len(), 2);
    assert!(buffered_book.pending_updates.contains_key(&102));
    assert!(buffered_book.pending_updates.contains_key(&103));

    // Now fill the gap and apply pending updates
    let update101 = buffered_update_of(&mut deque, security_id, 101, vec![(0, 99.52, 99)]);
    let result = buffered_book.apply_update(update101, &mut deque);
    assert!(result.is_ok());
    assert_eq!(buffered_book.order_book.seq_no, 103);
    assert!(buffered_book.pending_updates.is_empty());

    // All price levels from the pending updates exist in the order book
    assert_eq!(
        buffered_book.order_book.bids.get(&buffered_ticks(99.51)),
        Some(&100)
    );
    assert_eq!(
        buffered_book.order_book.bids.get(&buffered_ticks(99.50)),
        Some(&200)
    );
    assert_eq!(
        buffered_book.order_book.bids.get(&buffered_ticks(99.52)),
        Some(&99)
    );

    // The displaced handle was made inert: its batch was never retired, and
    // the arena stops draining in front of it.
    assert_eq!(deque.state.start_index(), 1);
    assert_eq!(deque.state.len(), 3);
    assert!(!deque.state.header(0).unwrap().is_removed);
    assert!(deque.state.header(1).unwrap().is_removed);
    assert!(deque.state.header(2).unwrap().is_removed);
}

#[test]
fn gap_fill_equals_in_order_application() {
    let security_id = 1001;
    let snapshot = buffered_test_snapshot(security_id, 100);
    let changes: Vec<(u64, Vec<(u8, f64, u64)>)> = vec![
        (101, vec![(0, 99.50, 25), (1, 101.00, 0)]),
        (102, vec![(0, 99.50, 0), (1, 101.50, 7)]),
        (103, vec![(0, 100.00, 11), (0, 95.00, 3)]),
        (104, vec![(1, 101.50, 0), (1, 102.00, 26)]),
    ];

    // Out of order, through the buffer
    let mut buffered_book = BufferedOrderBook::new(OrderBook::new(&snapshot).unwrap());
    let mut deque = BatchedDeque::new(10);
    for &index in &[3usize, 1, 2, 0] {
        let (seq_no, levels) = changes[index].clone();
        let update = buffered_update_of(&mut deque, security_id, seq_no, levels);
        let result = buffered_book.apply_update(update, &mut deque);
        assert_eq!(result.is_ok(), index == 0);
    }

    // In order, straight to a book
    let mut order_book = OrderBook::new(&snapshot).unwrap();
    let mut plain = BatchedDeque::new(10);
    for (seq_no, levels) in changes.clone() {
        let update = buffered_update_of(&mut plain, security_id, seq_no, levels);
        order_book.apply_update(&update, &plain).unwrap();
    }

    assert_eq!(buffered_book.order_book.seq_no, 104);
    assert_eq!(buffered_book.order_book.seq_no, order_book.seq_no);
    assert_eq!(buffered_book.order_book.timestamp, order_book.timestamp);
    assert_eq!(buffered_book.order_book.bids, order_book.bids);
    assert_eq!(buffered_book.order_book.asks, order_book.asks);
    assert!(buffered_book.pending_updates.is_empty());
    assert_eq!(deque.state.len(), 0);
    assert_eq!(deque.state.start_index(), 8);
}

#[test]
fn catch_up_stops_at_a_refused_update() {
    let security_id = 1001;
    let snapshot = buffered_test_snapshot(security_id, 100);
    let mut buffered_book = BufferedOrderBook::new(OrderBook::new(&snapshot).unwrap());
    let mut deque = BatchedDeque::new(10);
    let bad = buffered_update_of(&mut deque, security_id, 102, vec![(0, 99.505, 1)]);
    let later = buffered_update_of(&mut deque, security_id, 103, vec![(0, 99.50, 1)]);
    buffered_book.apply_update(bad, &mut deque).unwrap_err();
    buffered_book.apply_update(later, &mut deque).unwrap_err();
    let fill = buffered_update_of(&mut deque, security_id, 101, vec![(0, 99.00, 1)]);
    assert!(buffered_book.apply_update(fill, &mut deque).is_ok());
    // 102 was refused and is lost; 103 still waits
    assert_eq!(buffered_book.order_book.seq_no, 101);
    assert_eq!(buffered_book.pending_updates.len(), 1);
    assert!(buffered_book.pending_updates.contains_key(&103));
    assert_eq!(buffered_book.order_book.bids.get(&buffered_ticks(99.00)), Some(&1));
}

#[test]
fn refused_snapshot_changes_nothing() {
    let security_id = 1001;
    let snapshot = buffered_test_snapshot(security_id, 100);
    let mut buffered_book = BufferedOrderBook::new(OrderBook::new(&snapshot).unwrap());
    let mut deque = BatchedDeque::new(10);
    let update = buffered_test_update(&mut deque, security_id, 102);
    buffered_book.apply_update(update, &mut deque).unwrap_err();
    let old = buffered_test_snapshot(security_id, 100);
    assert!(matches!(
        buffered_book.apply_snapshot(&old, &mut deque),
        Err(Errors::OldSequenceNumber)
    ));
    assert_eq!(buffered_book.pending_updates.len(), 1);
    assert_eq!(deque.state.len(), 2);
}

#[test]
fn snapshot_is_followed_by_the_update_that_waits_next() {
    let security_id = 1001;
    let snapshot1 = buffered_test_snapshot(security_id, 100);
    let mut buffered_book = BufferedOrderBook::new(OrderBook::new(&snapshot1).unwrap());
    let mut deque = BatchedDeque::new(10);

    let update = buffered_test_update(&mut deque, security_id, 102);
    let result = buffered_book.apply_update(update, &mut deque);
    assert!(matches!(result, Err(Errors::SequenceNumberGap)));

    let snapshot2 = buffered_test_snapshot(security_id, 101);
    let result = buffered_book.apply_snapshot(&snapshot2, &mut deque);

    assert!(result.is_ok());
    assert_eq!(buffered_book.order_book.seq_no, 102);
    assert!(buffered_book.pending_updates.is_empty());
}

#[test]
fn snapshot_far_ahead_drops_what_waits_below_it() {
    let security_id = 1001;
    let mut buffered_book =
        BufferedOrderBook::new(OrderBook::new(&buffered_test_snapshot(security_id, 100)).unwrap());
    let mut deque = BatchedDeque::new(10);
    for seq_no in [105, 102, 1_000_000_000_000] {
        let update = buffered_test_update(&mut deque, security_id, seq_no);
        buffered_book.apply_update(update, &mut deque).unwrap_err();
    }
    let snapshot = buffered_test_snapshot(security_id, 999_999_999_999);
    assert!(buffered_book.apply_snapshot(&snapshot, &mut deque).is_ok());
    assert_eq!(buffered_book.order_book.seq_no, 1_000_000_000_000);
    assert!(buffered_book.pending_updates.is_empty());
    assert_eq!(deque.state.len(), 0);
}

#[test]
fn update_ahead_is_stored_as_itself() {
    let security_id = 1001;
    let mut buffered_book =
        BufferedOrderBook::new(OrderBook::new(&buffered_test_snapshot(security_id, 100)).unwrap());
    let mut deque = BatchedDeque::new(10);

    let first = buffered_update_of(&mut deque, security_id, 102, vec![(0, 99.51, 100)]);
    let first_batch = first.updates.batch;
    buffered_book.apply_update(first, &mut deque).unwrap_err();
    {
        let stored = &buffered_book.pending_updates[&102];
        assert_eq!(stored.seq_no, 102);
        assert_eq!(stored.timestamp, 1627846266);
        assert_eq!(stored.updates.batch.start_index, first_batch.start_index);
        assert_eq!(stored.updates.batch.len, first_batch.len);
        assert!(stored.updates.owned);
    }

    // A second update of the same sequence number takes its place, with its
    // own handle; the batch of the first is not retired.
    let second = buffered_update_of(&mut deque, security_id, 102, vec![(0, 99.52, 7), (1, 101.50, 8)]);
    buffered_book.apply_update(second, &mut deque).unwrap_err();
    let stored = &buffered_book.pending_updates[&102];
    assert_eq!(stored.updates.batch.start_index, 1);
    assert_eq!(stored.updates.batch.len, 2);
    assert!(stored.updates.owned);
    assert_eq!(buffered_book.pending_updates.len(), 1);
    assert_eq!(deque.state.start_index(), 0);
    assert_eq!(deque.state.len(), 3);
    assert!(!deque.state.header(0).unwrap().is_removed);
    assert!(buffered_book.holds_pending(&deque));
}

#[test]
fn applied_updates_give_their_batches_back() {
    let security_id = 1001;
    let mut buffered_book =
        BufferedOrderBook::new(OrderBook::new(&buffered_test_snapshot(security_id, 100)).unwrap());
    let mut deque = BatchedDeque::new(10);
    let ahead = buffered_test_update(&mut deque, security_id, 102);
    buffered_book.apply_update(ahead, &mut deque).unwrap_err();
    let refused = buffered_test_update(&mut deque, security_id, 99);
    buffered_book.apply_update(refused, &mut deque).unwrap_err();
    // The refused update is done with: its batch is retired behind the live one
    assert!(deque.state.header(2).unwrap().is_removed);
    assert!(!deque.state.header(0).unwrap().is_removed);
    let fill = buffered_test_update(&mut deque, security_id, 101);
    buffered_book.apply_update(fill, &mut deque).unwrap();
    assert_eq!(buffered_book.order_book.seq_no, 102);
    assert_eq!(deque.state.len(), 0);
    assert_eq!(deque.state.start_index(), 6);
}
