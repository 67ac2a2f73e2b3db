//! The book of one security.
use crate::batched_deque::batched_deque::Batch;
use crate::batched_deque::batched_deque::BatchedDeque;
use crate::batched_deque::model::ArenaView;
use crate::batched_deque::model::batch_held;
use crate::batched_deque::model::entry_at;
use crate::batched_deque::model::lemma_held_entries;
use crate::batched_deque::model::visited;
use crate::order_book::errors::Errors;
use crate::order_book::errors::UpdateMessageInfo;
use crate::order_book::laws::lemma_rebuilt_wf;
use crate::order_book::laws::lemma_step_keeps_wf;
use crate::order_book::model::apply_changes;
use crate::order_book::model::book_wf;
use crate::order_book::model::BookView;
use crate::order_book::model::Change;
use crate::order_book::model::entries_rejection;
use crate::order_book::model::kept_changes;
use crate::order_book::model::levels_rejection;
use crate::order_book::model::off_tick_text;
use crate::order_book::model::price_error_text;
use crate::order_book::model::price_ok;
use crate::order_book::model::price_ticks;
use crate::order_book::model::rebuilt;
use crate::order_book::model::reports;
use crate::order_book::model::side_changes;
use crate::order_book::model::sides_rejection;
use crate::order_book::model::snapshot_rejection;
use crate::order_book::model::step;
use crate::order_book::model::tick;
use crate::order_book::model::update_rejection;
use crate::order_book::model::update_view;
use crate::order_book::model::updated;
use crate::parsing::order_book_snapshot::Level as SnapshotLevel;
use crate::parsing::order_book_snapshot::OrderBookSnapshot;
use crate::parsing::order_book_update::Level as UpdateLevel;
use crate::parsing::order_book_update::OrderBookUpdate;
use crate::price::DecimalParts;
use crate::text::decimal_string;
use std::collections::BTreeMap;
use vstd::prelude::*;

verus! {

broadcast use {vstd::std_specs::btree::group_btree_axioms, vstd::laws_cmp::group_laws_cmp};

/// The text that `rust_decimal` gives for the decimal number
/// `mantissa / 10^scale`.
pub uninterp spec fn decimal_text(mantissa: i128, scale: u32) -> Seq<char>;

/// `Decimal::from_i128_with_scale` and the `Display` of `Decimal`: the
/// decimal number of the given parts as text.
#[verifier::external_body]
fn format_decimal(number: DecimalParts) -> (text: String)
    requires
        number.is_decimal(),
    ensures
        text@ == decimal_text(number.mantissa, number.scale),
{
    rust_decimal::Decimal::from_i128_with_scale(number.mantissa, number.scale).to_string()
}

/// The text of the error for `price`, which is a decimal number and no
/// multiple of `tick`.
fn format_off_tick(price: DecimalParts, tick: DecimalParts) -> (text: String)
    requires
        price.is_decimal(),
        tick.is_decimal(),
    ensures
        text@ == off_tick_text(price.mantissa, price.scale, tick.mantissa, tick.scale),
{
    let mut text = String::from_str("The price ");
    text.append(format_decimal(price).as_str());
    text.append(" is not a multiple of ");
    text.append(format_decimal(tick).as_str());
    text
}

/// Applies `changes` to one side of a book, in order.
fn commit(levels: &mut BTreeMap<i128, u64>, changes: &Vec<Change>)
    ensures
        final(levels)@ == apply_changes(old(levels)@, changes@),
{
    let mut i: usize = 0;
    proof {
        assert(changes@.take(0) =~= Seq::<Change>::empty());
    }
    while i < changes.len()
        invariant
            i <= changes.len(),
            levels@ == apply_changes(old(levels)@, changes@.take(i as int)),
        decreases changes.len() - i,
    {
        let (price, qty) = changes[i];
        if qty == 0 {
            levels.remove(&price);
        } else {
            levels.insert(price, qty);
        }
        proof {
            assert(changes@.take(i + 1).drop_last() =~= changes@.take(i as int));
        }
        i += 1;
    }
    proof {
        assert(changes@.take(changes.len() as int) =~= changes@);
    }
}

/// A rejection found among the first levels stays the rejection of all.
proof fn lemma_levels_rejection_stays(levels: Seq<SnapshotLevel>, seen: int)
    requires
        0 <= seen <= levels.len(),
        levels_rejection(levels.take(seen)) is Some,
    ensures
        levels_rejection(levels) == levels_rejection(levels.take(seen)),
    decreases levels.len() - seen,
{
    if seen < levels.len() {
        assert(levels.take(seen + 1).drop_last() =~= levels.take(seen));
        lemma_levels_rejection_stays(levels, seen + 1);
    } else {
        assert(levels.take(seen) =~= levels);
    }
}

/// Checks the price of every level of one side of a snapshot and collects
/// the levels that the rebuilt side will hold: those of positive quantity.
fn prepare_levels(
    security_id: u64,
    seq_no: u64,
    levels: &[SnapshotLevel; 5],
    changes: &mut Vec<Change>,
) -> (result: Result<(), Errors>)
    requires
        old(changes)@.len() == 0,
    ensures
        match levels_rejection(levels@) {
            None => result is Ok && final(changes)@ == kept_changes(levels@),
            Some(rejection) => result is Err && reports(
                result->Err_0,
                rejection,
                security_id,
                seq_no,
            ),
        },
{
    let mut i: usize = 0;
    proof {
        assert(levels@.take(0) =~= Seq::<SnapshotLevel>::empty());
        assert(changes@ =~= Seq::<Change>::empty());
    }
    while i < 5
        invariant
            i <= 5 == levels@.len(),
            levels_rejection(levels@.take(i as int)) is None,
            changes@ == kept_changes(levels@.take(i as int)),
        decreases 5 - i,
    {
        let level = levels[i];
        proof {
            assert(levels@.take(i + 1).drop_last() =~= levels@.take(i as int));
        }
        let price = match OrderBook::normalized_price(security_id, seq_no, level.price) {
            Ok(price) => price,
            Err(e) => {
                proof {
                    lemma_levels_rejection_stays(levels@, i + 1);
                }
                return Err(e);
            },
        };
        if level.qty > 0 {
            changes.push((price, level.qty));
        }
        i += 1;
    }
    proof {
        assert(levels@.take(5) =~= levels@);
    }
    Ok(())
}

/// A rejection found among the changes visited so far stays the rejection
/// of the whole batch.
proof fn lemma_rejection_stays(arena: ArenaView<UpdateLevel>, batch: Batch, seen: int, upto: int)
    requires
        0 <= seen <= upto,
        entries_rejection(visited(arena, batch, seen)) is Some,
    ensures
        entries_rejection(visited(arena, batch, upto)) == entries_rejection(
            visited(arena, batch, seen),
        ),
    decreases upto - seen,
{
    if seen < upto {
        lemma_rejection_stays(arena, batch, seen, upto - 1);
        match entry_at(arena, batch, upto - 1) {
            Some(entry) => {
                assert(visited(arena, batch, upto).drop_last() =~= visited(arena, batch, upto - 1));
            },
            None => {},
        }
    }
}

/// The state of one security's book: the quantity at each price on either
/// side, and the sequence number and time of the last record applied.
#[derive(Debug)]
pub struct OrderBook {
    pub timestamp: u64,
    pub seq_no: u64,
    pub security_id: u64,
    pub bids: BTreeMap<i128, u64>,
    pub asks: BTreeMap<i128, u64>,
    /// Scratch space: the bid changes of the record being applied.
    pub bid_updates: Vec<Change>,
    /// Scratch space: the ask changes of the record being applied.
    pub ask_updates: Vec<Change>,
}

impl View for OrderBook {
    type V = BookView;

    open spec fn view(&self) -> BookView {
        BookView {
            timestamp: self.timestamp,
            seq_no: self.seq_no,
            security_id: self.security_id,
            bids: self.bids@,
            asks: self.asks@,
        }
    }
}

impl OrderBook {
    /// The tick: 0.01.
    pub fn price_tick() -> (tick: DecimalParts)
        ensures
            tick == self::tick(),
    {
        DecimalParts { mantissa: 1, scale: 2 }
    }

    /// Checks a price: it must be a decimal number and a multiple of the tick.
    /// Returns the price in ticks.
    pub fn normalized_price(security_id: u64, seq_no: u64, price: Option<DecimalParts>) -> (result:
        Result<i128, Errors>)
        ensures
            match result {
                Ok(ticks) => price_ok(price) && ticks == price_ticks(price),
                Err(Errors::InvalidPrice(info, text)) => {
                    &&& !price_ok(price)
                    &&& info.security_id == security_id
                    &&& info.seq_no == seq_no
                    &&& text@ == price_error_text(price)
                },
                Err(_) => false,
            },
    {
        match price {
            Some(decimal) => {
                match decimal.to_ticks() {
                    Some(ticks) => Ok(ticks),
                    None => {
                        let text = if decimal.scale <= crate::price::MAX_SCALE && decimal.mantissa
                            <= crate::price::MAX_MANTISSA && decimal.mantissa
                            >= -crate::price::MAX_MANTISSA {
                            format_off_tick(decimal, DecimalParts { mantissa: 1, scale: 2 })
                        } else {
                            String::from_str("Failed to convert the price to a decimal number")
                        };
                        Err(Errors::InvalidPrice(UpdateMessageInfo { security_id, seq_no }, text))
                    },
                }
            },
            None => Err(
                Errors::InvalidPrice(
                    UpdateMessageInfo { security_id, seq_no },
                    String::from_str("Failed to convert the price to a decimal number"),
                ),
            ),
        }
    }

    /// The book that `snapshot` describes, if each of its ten levels has a
    /// price on the tick; the levels of quantity 0 are checked too and then
    /// left out of the book.
    pub fn new(snapshot: &OrderBookSnapshot) -> (result: Result<Self, Errors>)
        ensures
            result is Ok ==> book_wf(result->Ok_0@),
            match sides_rejection(*snapshot) {
                None => result is Ok && result->Ok_0@ == rebuilt(*snapshot),
                Some(rejection) => result is Err && reports(
                    result->Err_0,
                    rejection,
                    snapshot.security_id,
                    snapshot.seq_no,
                ),
            },
    {
        let mut order_book = Self {
            timestamp: snapshot.timestamp,
            seq_no: snapshot.seq_no,
            security_id: snapshot.security_id,
            bids: BTreeMap::new(),
            asks: BTreeMap::new(),
            bid_updates: Vec::new(),
            ask_updates: Vec::new(),
        };
        proof {
            lemma_rebuilt_wf(*snapshot);
        }
        match order_book.apply_snapshot_sides(snapshot) {
            Ok(()) => Ok(order_book),
            Err(e) => Err(e),
        }
    }

    /// Replaces the book by what `snapshot` describes.
    ///
    /// The snapshot must be for this book's security and carry a sequence
    /// number above the book's, and each of its ten levels must have a price
    /// on the tick, whatever its quantity. Then both sides are rebuilt from
    /// the levels of positive quantity and the book takes the snapshot's time
    /// and sequence number. Otherwise the book stays as it was and the error
    /// says why.
    pub fn apply_snapshot(&mut self, snapshot: &OrderBookSnapshot) -> (result: Result<(), Errors>)
        ensures
            result is Ok || book_wf(old(self)@) ==> book_wf(final(self)@),
            match snapshot_rejection(old(self)@, *snapshot) {
                None => result is Ok && final(self)@ == rebuilt(*snapshot),
                Some(rejection) => {
                    &&& result is Err
                    &&& reports(result->Err_0, rejection, snapshot.security_id, snapshot.seq_no)
                    &&& final(self)@ == old(self)@
                },
            },
    {
        proof {
            lemma_rebuilt_wf(*snapshot);
        }
        if snapshot.security_id != self.security_id {
            return Err(Errors::SecurityIdMismatch);
        }
        if snapshot.seq_no <= self.seq_no {
            return Err(Errors::OldSequenceNumber);
        }
        match self.apply_snapshot_sides(snapshot) {
            Ok(()) => {},
            Err(e) => {
                return Err(e);
            },
        }
        self.timestamp = snapshot.timestamp;
        self.seq_no = snapshot.seq_no;

        Ok(())
    }

    /// Checks the levels of `snapshot` and, where none is refused, rebuilds
    /// both sides from them.
    fn apply_snapshot_sides(&mut self, snapshot: &OrderBookSnapshot) -> (result: Result<
        (),
        Errors,
    >)
        ensures
            final(self).timestamp == old(self).timestamp,
            final(self).seq_no == old(self).seq_no,
            final(self).security_id == old(self).security_id,
            match sides_rejection(*snapshot) {
                None => {
                    &&& result is Ok
                    &&& final(self).bids@ == rebuilt(*snapshot).bids
                    &&& final(self).asks@ == rebuilt(*snapshot).asks
                },
                Some(rejection) => {
                    &&& result is Err
                    &&& reports(result->Err_0, rejection, snapshot.security_id, snapshot.seq_no)
                    &&& final(self)@ == old(self)@
                },
            },
    {
        self.ask_updates.clear();
        self.bid_updates.clear();

        let asks = [snapshot.ask1, snapshot.ask2, snapshot.ask3, snapshot.ask4, snapshot.ask5];
        let bids = [snapshot.bid1, snapshot.bid2, snapshot.bid3, snapshot.bid4, snapshot.bid5];
        proof {
            assert(asks@ =~= snapshot.asks());
            assert(bids@ =~= snapshot.bids());
        }
        match prepare_levels(snapshot.security_id, snapshot.seq_no, &asks, &mut self.ask_updates) {
            Ok(()) => {},
            Err(e) => {
                return Err(e);
            },
        }
        match prepare_levels(snapshot.security_id, snapshot.seq_no, &bids, &mut self.bid_updates) {
            Ok(()) => {},
            Err(e) => {
                return Err(e);
            },
        }

        self.asks.clear();
        commit(&mut self.asks, &self.ask_updates);
        self.bids.clear();
        commit(&mut self.bids, &self.bid_updates);
        self.ask_updates.clear();
        self.bid_updates.clear();

        Ok(())
    }

    /// Applies `update`, whose changes lie in `deque`: the arena must hold
    /// every entry of the update's batch.
    ///
    /// The update must be for this book's security and carry the sequence
    /// number that follows the book's, and each change must have a price on
    /// the tick and a side of 0 or 1. Then every change is applied, in order,
    /// and the book takes the update's time and sequence number. Otherwise
    /// the book stays as it was and the error says why.
    pub fn apply_update(
        &mut self,
        update: &OrderBookUpdate,
        deque: &BatchedDeque<UpdateLevel>,
    ) -> (result: Result<(), Errors>)
        requires
            deque.state.wf(),
            batch_held(deque.state@, update.updates.batch),
        ensures
            book_wf(old(self)@) ==> book_wf(final(self)@),
            match update_rejection(old(self)@, update_view(*update, deque.state@)) {
                None => result is Ok && final(self)@ == updated(
                    old(self)@,
                    update_view(*update, deque.state@),
                ),
                Some(rejection) => {
                    &&& result is Err
                    &&& reports(result->Err_0, rejection, update.security_id, update.seq_no)
                    &&& final(self)@ == old(self)@
                },
            },
    {
        proof {
            if book_wf(self@) {
                lemma_step_keeps_wf(self@, update_view(*update, deque.state@));
            }
        }
        if update.security_id != self.security_id {
            return Err(Errors::SecurityIdMismatch);
        }
        if update.seq_no <= self.seq_no {
            return Err(Errors::OldSequenceNumber);
        }
        if update.seq_no != self.seq_no + 1 {
            return Err(Errors::SequenceNumberGap);
        }
        self.ask_updates.clear();
        self.bid_updates.clear();

        let ghost arena = deque.state@;
        let ghost batch = update.updates.batch;
        let count = update.updates.len();
        let mut offset: usize = 0;
        while offset < count
            invariant
                offset <= count == batch.len,
                batch == update.updates.batch,
                arena == deque.state@,
                deque.state.wf(),
                batch_held(arena, batch),
                self@ == old(self)@,
                book_wf(old(self)@) ==> book_wf(
                    step(old(self)@, update_view(*update, deque.state@)),
                ),
                update.security_id == self.security_id,
                update.seq_no == self.seq_no + 1,
                entries_rejection(visited(arena, batch, offset as int)) is None,
                self.bid_updates@ == side_changes(visited(arena, batch, offset as int), 0),
                self.ask_updates@ == side_changes(visited(arena, batch, offset as int), 1),
            decreases count - offset,
        {
            proof {
                lemma_held_entries(arena, batch, batch.len as int);
                lemma_held_entries(arena, batch, offset + 1);
            }
            let upd = match update.updates.get(deque, offset) {
                Some(upd) => upd,
                None => {
                    proof {
                        assert(false);
                    }
                    return Ok(());
                },
            };
            let ghost seen = visited(arena, batch, offset as int);
            let ghost next = visited(arena, batch, offset + 1);
            proof {
                assert(next == seen.push(*upd));
                assert(next.drop_last() =~= seen);
            }
            let checked = Self::normalized_price(
                update.security_id,
                update.seq_no,
                upd.price,
            );
            let price = match checked {
                Ok(price) => price,
                Err(e) => {
                    proof {
                        lemma_rejection_stays(arena, batch, offset + 1, batch.len as int);
                    }
                    return Err(e);
                },
            };
            if upd.side == 0 {
                self.bid_updates.push((price, upd.qty));
            } else if upd.side == 1 {
                self.ask_updates.push((price, upd.qty));
            } else {
                proof {
                    lemma_rejection_stays(arena, batch, offset + 1, batch.len as int);
                }
                return Err(
                    Errors::InvalidSide(
                        UpdateMessageInfo {
                            security_id: update.security_id,
                            seq_no: update.seq_no,
                        },
                        decimal_string(upd.side as u128),
                    ),
                );
            }
            offset += 1;
        }

        commit(&mut self.bids, &self.bid_updates);
        commit(&mut self.asks, &self.ask_updates);
        self.bid_updates.clear();
        self.ask_updates.clear();

        self.timestamp = update.timestamp;
        self.seq_no = update.seq_no;

        Ok(())
    }
}

} // verus!
