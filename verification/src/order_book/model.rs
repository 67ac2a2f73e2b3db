//! What a book and a buffered book are, mathematically, and what records
//! do to them.
use crate::batched_deque::model::ArenaView;
use crate::batched_deque::model::batch_entries;
use crate::order_book::errors::Errors;
use crate::order_book::order_book::decimal_text;
use crate::parsing::order_book_snapshot::Level as SnapshotLevel;
use crate::parsing::order_book_snapshot::OrderBookSnapshot;
use crate::parsing::order_book_update::Level as UpdateLevel;
use crate::parsing::order_book_update::OrderBookUpdate;
use crate::price::DecimalParts;
use crate::text::decimal_digits;
use vstd::prelude::*;

verus! {

/// One side of a book: the quantity at each price, the price in ticks.
pub type Levels = Map<i128, u64>;

/// A change of one side: the new quantity at a price in ticks, where
/// quantity 0 takes the price out.
pub type Change = (i128, u64);

/// The price is a decimal number and a multiple of the tick.
pub open spec fn price_ok(price: Option<DecimalParts>) -> bool {
    price is Some && price->Some_0.on_tick()
}

/// The price in ticks, where it is a multiple of the tick.
pub open spec fn price_ticks(price: Option<DecimalParts>) -> i128 {
    price->Some_0.ticks() as i128
}

/// The text of the error for a price that is no multiple of the tick, both
/// numbers given by mantissa and scale.
pub open spec fn off_tick_text(
    mantissa: i128,
    scale: u32,
    tick_mantissa: i128,
    tick_scale: u32,
) -> Seq<char> {
    "The price "@ + decimal_text(mantissa, scale) + " is not a multiple of "@ + decimal_text(
        tick_mantissa,
        tick_scale,
    )
}

/// The text of the error for a side that is neither bid nor ask: the side
/// in decimal digits.
pub open spec fn side_text(side: u8) -> Seq<char> {
    decimal_digits(side as nat)
}

/// The text of the error for a price that is no decimal number.
pub open spec fn not_decimal_text() -> Seq<char> {
    "Failed to convert the price to a decimal number"@
}

/// The tick: 0.01.
pub open spec fn tick() -> DecimalParts {
    DecimalParts { mantissa: 1, scale: 2 }
}

/// The text of the error for a price that fails the check.
pub open spec fn price_error_text(price: Option<DecimalParts>) -> Seq<char> {
    if price is Some && price->Some_0.is_decimal() {
        off_tick_text(price->Some_0.mantissa, price->Some_0.scale, tick().mantissa, tick().scale)
    } else {
        not_decimal_text()
    }
}

/// `levels` after `changes`, applied in order: quantity 0 takes the price
/// out, any other quantity is set at the price.
pub open spec fn apply_changes(levels: Levels, changes: Seq<Change>) -> Levels
    decreases changes.len(),
{
    if changes.len() == 0 {
        levels
    } else {
        let before = apply_changes(levels, changes.drop_last());
        let (price, qty) = changes.last();
        if qty == 0 {
            before.remove(price)
        } else {
            before.insert(price, qty)
        }
    }
}

/// Every quantity held is positive.
pub open spec fn all_positive(levels: Levels) -> bool {
    forall|price: i128| levels.contains_key(price) ==> #[trigger] levels[price] > 0
}

/// The mathematical content of a book.
pub struct BookView {
    pub timestamp: u64,
    pub seq_no: u64,
    pub security_id: u64,
    pub bids: Levels,
    pub asks: Levels,
}

/// The mathematical content of an update: its header and the changes that
/// its handle reaches in the arena.
pub struct UpdateView {
    pub timestamp: u64,
    pub seq_no: u64,
    pub security_id: u64,
    pub entries: Seq<UpdateLevel>,
}

/// The content of `update`, its changes read from `arena`.
pub open spec fn update_view(update: OrderBookUpdate, arena: ArenaView<UpdateLevel>) -> UpdateView {
    UpdateView {
        timestamp: update.timestamp,
        seq_no: update.seq_no,
        security_id: update.security_id,
        entries: batch_entries(arena, update.updates.batch),
    }
}

/// Why a record is not applied to a book.
pub enum Rejection {
    SecurityIdMismatch,
    OldSequenceNumber,
    SequenceNumberGap,
    InvalidPrice(Option<DecimalParts>),
    InvalidSide(u8),
}

/// The error `error` reports the rejection `rejection` of the record of
/// `security_id` and `seq_no`.
pub open spec fn reports(error: Errors, rejection: Rejection, security_id: u64, seq_no: u64) -> bool {
    match rejection {
        Rejection::SecurityIdMismatch => error is SecurityIdMismatch,
        Rejection::OldSequenceNumber => error is OldSequenceNumber,
        Rejection::SequenceNumberGap => error is SequenceNumberGap,
        Rejection::InvalidPrice(price) => match error {
            Errors::InvalidPrice(info, text) => info.security_id == security_id && info.seq_no
                == seq_no && text@ == price_error_text(price),
            _ => false,
        },
        Rejection::InvalidSide(side) => match error {
            Errors::InvalidSide(info, text) => info.security_id == security_id && info.seq_no
                == seq_no && text@ == side_text(side),
            _ => false,
        },
    }
}

/// Why one change of an update is refused, if it is: its price is checked
/// before its side.
pub open spec fn entry_rejection(entry: UpdateLevel) -> Option<Rejection> {
    if !price_ok(entry.price) {
        Some(Rejection::InvalidPrice(entry.price))
    } else if entry.side > 1 {
        Some(Rejection::InvalidSide(entry.side))
    } else {
        None
    }
}

/// The rejection of the first change among `entries` that is refused.
pub open spec fn entries_rejection(entries: Seq<UpdateLevel>) -> Option<Rejection>
    decreases entries.len(),
{
    if entries.len() == 0 {
        None
    } else {
        match entries_rejection(entries.drop_last()) {
            Some(rejection) => Some(rejection),
            None => entry_rejection(entries.last()),
        }
    }
}

/// The changes among `entries` that are for `side`, in order.
pub open spec fn side_changes(entries: Seq<UpdateLevel>, side: u8) -> Seq<Change>
    decreases entries.len(),
{
    if entries.len() == 0 {
        Seq::empty()
    } else {
        let before = side_changes(entries.drop_last(), side);
        let entry = entries.last();
        if entry.side == side {
            before.push((price_ticks(entry.price), entry.qty))
        } else {
            before
        }
    }
}

/// Why `update` is not applied to `book`, if it is not.
pub open spec fn update_rejection(book: BookView, update: UpdateView) -> Option<Rejection> {
    if update.security_id != book.security_id {
        Some(Rejection::SecurityIdMismatch)
    } else if update.seq_no <= book.seq_no {
        Some(Rejection::OldSequenceNumber)
    } else if update.seq_no != book.seq_no + 1 {
        Some(Rejection::SequenceNumberGap)
    } else {
        entries_rejection(update.entries)
    }
}

/// `book` after `update` has been applied to it.
pub open spec fn updated(book: BookView, update: UpdateView) -> BookView {
    BookView {
        timestamp: update.timestamp,
        seq_no: update.seq_no,
        security_id: book.security_id,
        bids: apply_changes(book.bids, side_changes(update.entries, 0)),
        asks: apply_changes(book.asks, side_changes(update.entries, 1)),
    }
}

/// The rejection of the first level among `levels` that is refused: every
/// level must have a price on the tick, whatever its quantity.
pub open spec fn levels_rejection(levels: Seq<SnapshotLevel>) -> Option<Rejection>
    decreases levels.len(),
{
    if levels.len() == 0 {
        None
    } else {
        match levels_rejection(levels.drop_last()) {
            Some(rejection) => Some(rejection),
            None => if !price_ok(levels.last().price) {
                Some(Rejection::InvalidPrice(levels.last().price))
            } else {
                None
            },
        }
    }
}

/// The levels among `levels` that a rebuilt side holds, as changes: those
/// of positive quantity, in order.
pub open spec fn kept_changes(levels: Seq<SnapshotLevel>) -> Seq<Change>
    decreases levels.len(),
{
    if levels.len() == 0 {
        Seq::empty()
    } else {
        let before = kept_changes(levels.drop_last());
        if levels.last().qty > 0 {
            before.push((price_ticks(levels.last().price), levels.last().qty))
        } else {
            before
        }
    }
}

/// Why the levels of `snapshot` are refused, if they are: the asks are
/// checked before the bids.
pub open spec fn sides_rejection(snapshot: OrderBookSnapshot) -> Option<Rejection> {
    match levels_rejection(snapshot.asks()) {
        Some(rejection) => Some(rejection),
        None => levels_rejection(snapshot.bids()),
    }
}

/// Why `snapshot` is not applied to `book`, if it is not.
pub open spec fn snapshot_rejection(book: BookView, snapshot: OrderBookSnapshot) -> Option<
    Rejection,
> {
    if snapshot.security_id != book.security_id {
        Some(Rejection::SecurityIdMismatch)
    } else if snapshot.seq_no <= book.seq_no {
        Some(Rejection::OldSequenceNumber)
    } else {
        sides_rejection(snapshot)
    }
}

/// The book that `snapshot` describes.
pub open spec fn rebuilt(snapshot: OrderBookSnapshot) -> BookView {
    BookView {
        timestamp: snapshot.timestamp,
        seq_no: snapshot.seq_no,
        security_id: snapshot.security_id,
        bids: apply_changes(Map::empty(), kept_changes(snapshot.bids())),
        asks: apply_changes(Map::empty(), kept_changes(snapshot.asks())),
    }
}

/// Every quantity that the book holds is positive.
pub open spec fn book_wf(book: BookView) -> bool {
    all_positive(book.bids) && all_positive(book.asks)
}

/// `book` after `update` has been handed to it: applied, or refused with
/// the book as it was.
pub open spec fn step(book: BookView, update: UpdateView) -> BookView {
    if update_rejection(book, update) is None {
        updated(book, update)
    } else {
        book
    }
}

/// `book` after each of `updates` has been handed to it, in order.
pub open spec fn apply_all(book: BookView, updates: Seq<UpdateView>) -> BookView
    decreases updates.len(),
{
    if updates.len() == 0 {
        book
    } else {
        apply_all(step(book, updates[0]), updates.drop_first())
    }
}

/// How many of `updates`, handed to `book` in order, are applied.
pub open spec fn applied_count(book: BookView, updates: Seq<UpdateView>) -> nat
    decreases updates.len(),
{
    if updates.len() == 0 {
        0
    } else if update_rejection(book, updates[0]) is None {
        1 + applied_count(updated(book, updates[0]), updates.drop_first())
    } else {
        applied_count(book, updates.drop_first())
    }
}

/// The mathematical content of a buffered book: the book, and the updates
/// that wait for the gap before them to close, by sequence number.
pub struct BufferedView {
    pub book: BookView,
    pub pending: Map<u64, UpdateView>,
}

/// The most updates that may wait at a time.
pub open spec fn max_pending() -> nat {
    10000
}

/// Catch-up: for as long as the update that follows the book is waiting, it
/// is taken out of the waiting updates and applied; the first one that is
/// refused ends the catch-up and is lost.
pub open spec fn catch_up(book: BookView, pending: Map<u64, UpdateView>) -> BufferedView
    decreases u64::MAX - book.seq_no,
{
    let next = (book.seq_no + 1) as u64;
    if book.seq_no < u64::MAX && pending.contains_key(next) {
        if update_rejection(book, pending[next]) is None {
            catch_up(updated(book, pending[next]), pending.remove(next))
        } else {
            BufferedView { book, pending: pending.remove(next) }
        }
    } else {
        BufferedView { book, pending }
    }
}

/// `pending` with a place made for one more update: where it is full, every
/// waiting update is dropped.
pub open spec fn with_room(pending: Map<u64, UpdateView>) -> Map<u64, UpdateView> {
    if pending.len() >= max_pending() {
        Map::empty()
    } else {
        pending
    }
}

/// The buffered book after `update` has been handed to it.
///
/// An update that the book takes is applied and followed by catch-up. One
/// that is ahead of the book by more than a step is kept waiting under its
/// sequence number, in place of any that waited there. Any other changes
/// nothing.
pub open spec fn buffered_update(state: BufferedView, update: UpdateView) -> BufferedView {
    match update_rejection(state.book, update) {
        None => catch_up(updated(state.book, update), state.pending),
        Some(Rejection::SequenceNumberGap) => BufferedView {
            book: state.book,
            pending: with_room(state.pending).insert(update.seq_no, update),
        },
        Some(_) => state,
    }
}

/// `pending` without the updates from sequence number `from` up to, not
/// including, `to`.
pub open spec fn without_range(pending: Map<u64, UpdateView>, from: u64, to: u64) -> Map<
    u64,
    UpdateView,
> {
    pending.remove_keys(Set::new(|k: u64| from <= k < to))
}

/// The buffered book after `snapshot` has been handed to it.
///
/// A snapshot that the book takes replaces the book; the waiting updates
/// from the book's old sequence number up to the snapshot's are dropped, and
/// catch-up follows. Any other changes nothing.
pub open spec fn buffered_snapshot(state: BufferedView, snapshot: OrderBookSnapshot) -> BufferedView {
    match snapshot_rejection(state.book, snapshot) {
        None => catch_up(
            rebuilt(snapshot),
            without_range(state.pending, state.book.seq_no, snapshot.seq_no),
        ),
        Some(_) => state,
    }
}

/// The buffered book after each of `updates` has been handed to it, in
/// order.
pub open spec fn buffer_all(state: BufferedView, updates: Seq<UpdateView>) -> BufferedView
    decreases updates.len(),
{
    if updates.len() == 0 {
        state
    } else {
        buffer_all(buffered_update(state, updates[0]), updates.drop_first())
    }
}

/// `pending` with each of `updates` put under its sequence number, in
/// order.
pub open spec fn collected(pending: Map<u64, UpdateView>, updates: Seq<UpdateView>) -> Map<
    u64,
    UpdateView,
>
    decreases updates.len(),
{
    if updates.len() == 0 {
        pending
    } else {
        collected(pending.insert(updates[0].seq_no, updates[0]), updates.drop_first())
    }
}

/// The sequence numbers of `updates` go up from each to the next.
pub open spec fn strictly_increasing(updates: Seq<UpdateView>) -> bool {
    forall|i: int, j: int| 0 <= i < j < updates.len() ==> updates[i].seq_no < updates[j].seq_no
}

/// No two of `updates` have the same sequence number.
pub open spec fn distinct_seq_nos(updates: Seq<UpdateView>) -> bool {
    forall|i: int, j: int|
        0 <= i < updates.len() && 0 <= j < updates.len() && i != j ==> updates[i].seq_no
            != updates[j].seq_no
}

/// Each of `a` is among `b` and each of `b` is among `a`.
pub open spec fn same_updates(a: Seq<UpdateView>, b: Seq<UpdateView>) -> bool {
    &&& forall|i: int| 0 <= i < a.len() ==> b.contains(#[trigger] a[i])
    &&& forall|j: int| 0 <= j < b.len() ==> a.contains(#[trigger] b[j])
}

/// The waiting updates as the arena shows them.
pub open spec fn pending_view(
    pending: Map<u64, OrderBookUpdate>,
    arena: ArenaView<UpdateLevel>,
) -> Map<u64, UpdateView> {
    Map::new(|k: u64| pending.contains_key(k), |k: u64| update_view(pending[k], arena))
}

} // verus!
