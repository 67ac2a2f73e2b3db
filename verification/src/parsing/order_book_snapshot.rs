//! Snapshots and their decoder.
use crate::parsing::parser::check_available;
use crate::parsing::parser::le_u64;
use crate::parsing::parser::read_u64;
use crate::parsing::parser::shortfall;
use crate::parsing::parser::unexpected_eof;
use crate::parsing::parser::DefaultParser;
use crate::parsing::parser::Parser;
use crate::parsing::parser::ParserError;
use crate::price::DecimalParts;
use vstd::prelude::*;

verus! {

/// One price level of a snapshot. The price is `None` where the feed's value
/// is no decimal number.
#[derive(Debug, Clone, Copy)]
pub struct Level {
    pub price: Option<DecimalParts>,
    pub qty: u64,
}

/// A full picture of the five best levels on each side of one book.
#[derive(Debug)]
pub struct OrderBookSnapshot {
    pub timestamp: u64,
    pub seq_no: u64,
    pub security_id: u64,
    pub bid1: Level,
    pub ask1: Level,
    pub bid2: Level,
    pub ask2: Level,
    pub bid3: Level,
    pub ask3: Level,
    pub bid4: Level,
    pub ask4: Level,
    pub bid5: Level,
    pub ask5: Level,
}

impl OrderBookSnapshot {
    /// The ask levels, best first.
    pub open spec fn asks(&self) -> Seq<Level> {
        seq![self.ask1, self.ask2, self.ask3, self.ask4, self.ask5]
    }

    /// The bid levels, best first.
    pub open spec fn bids(&self) -> Seq<Level> {
        seq![self.bid1, self.bid2, self.bid3, self.bid4, self.bid5]
    }
}


/// Bytes of one level on the wire: the price, a 64-bit binary float, and
/// the quantity.
pub const LEVEL_SIZE: usize = 16;

/// Bytes of one snapshot on the wire: time, sequence number, security id
/// and ten levels, in the order bid 1, ask 1, bid 2, ask 2, up to ask 5.
pub const SNAPSHOT_SIZE: usize = 184;

/// `level` is what the sixteen bytes from `at` on hold: its quantity is read
/// from the last eight, its price is what `convert` makes of the first
/// eight.
pub open spec fn level_at<F: Fn(u64) -> Option<DecimalParts>>(
    convert: &F,
    bytes: Seq<u8>,
    at: int,
    level: Level,
) -> bool {
    level.qty == le_u64(bytes, at + 8) && call_ensures(
        *convert,
        (le_u64(bytes, at),),
        level.price,
    )
}

/// `snapshot` is what the first 184 bytes of `bytes` hold.
pub open spec fn snapshot_at<F: Fn(u64) -> Option<DecimalParts>>(
    convert: &F,
    bytes: Seq<u8>,
    snapshot: OrderBookSnapshot,
) -> bool {
    &&& snapshot.timestamp == le_u64(bytes, 0)
    &&& snapshot.seq_no == le_u64(bytes, 8)
    &&& snapshot.security_id == le_u64(bytes, 16)
    &&& level_at(convert, bytes, 24, snapshot.bid1)
    &&& level_at(convert, bytes, 40, snapshot.ask1)
    &&& level_at(convert, bytes, 56, snapshot.bid2)
    &&& level_at(convert, bytes, 72, snapshot.ask2)
    &&& level_at(convert, bytes, 88, snapshot.bid3)
    &&& level_at(convert, bytes, 104, snapshot.ask3)
    &&& level_at(convert, bytes, 120, snapshot.bid4)
    &&& level_at(convert, bytes, 136, snapshot.ask4)
    &&& level_at(convert, bytes, 152, snapshot.bid5)
    &&& level_at(convert, bytes, 168, snapshot.ask5)
}

/// Decodes the level at `at`.
pub fn decode_level<F: Fn(u64) -> Option<DecimalParts>>(
    bytes: &[u8],
    at: usize,
    convert: &F,
) -> (level: Level)
    requires
        at + LEVEL_SIZE <= bytes@.len(),
        forall|bits: u64| call_requires(convert, (bits,)),
    ensures
        level_at(convert, bytes@, at as int, level),
{
    let len = bytes.len();
    assert(at + LEVEL_SIZE <= len);
    let price = convert(read_u64(bytes, at));
    let qty = read_u64(bytes, at + 8);
    Level { price, qty }
}

/// The decoder of one snapshot level.
pub struct LevelParser;

impl Parser<Level> for LevelParser {
    open spec fn wf(&self) -> bool {
        true
    }

    /// Decodes the level at the front of `bytes`; fewer than sixteen bytes
    /// are an input that ends inside a record.
    fn read<F: Fn(u64) -> Option<DecimalParts>>(&mut self, bytes: &[u8], convert: &F) -> (result:
        Result<Level, ParserError>)
        ensures
            match result {
                Ok(level) => bytes@.len() >= LEVEL_SIZE && level_at(convert, bytes@, 0, level),
                Err(e) => bytes@.len() < LEVEL_SIZE && e is Io,
            },
    {
        if bytes.len() < LEVEL_SIZE {
            return Err(ParserError::Io(unexpected_eof()));
        }
        Ok(decode_level(bytes, 0, convert))
    }
}

/// The decoder of snapshots.
#[derive(Debug)]
pub struct OrderBookSnapshotParser;

impl Default for OrderBookSnapshotParser {
    fn default() -> Self {
        OrderBookSnapshotParser
    }
}

impl DefaultParser<OrderBookSnapshot> for OrderBookSnapshot {
    type ParserType = OrderBookSnapshotParser;

    fn default_parser() -> (parser: OrderBookSnapshotParser) {
        OrderBookSnapshotParser
    }
}

impl Parser<OrderBookSnapshot> for OrderBookSnapshotParser {
    open spec fn wf(&self) -> bool {
        true
    }

    /// Decodes the snapshot at the front of `bytes`.
    ///
    /// Fewer than eight bytes count as the end of the input, fewer than a
    /// whole snapshot as an input that ends inside a record.
    fn read<F: Fn(u64) -> Option<DecimalParts>>(&mut self, bytes: &[u8], convert: &F) -> (result:
        Result<OrderBookSnapshot, ParserError>)
        ensures
            match shortfall(bytes@.len(), SNAPSHOT_SIZE as nat) {
                None => result is Ok && snapshot_at(convert, bytes@, result->Ok_0),
                Some(true) => result is Err && result->Err_0 is ExpectedEof,
                Some(false) => result is Err && result->Err_0 is Io,
            },
    {
        match check_available(bytes.len(), SNAPSHOT_SIZE) {
            Ok(()) => {},
            Err(e) => {
                return Err(e);
            },
        }
        let timestamp = read_u64(bytes, 0);
        let seq_no = read_u64(bytes, 8);
        let security_id = read_u64(bytes, 16);
        Ok(
            OrderBookSnapshot {
                timestamp,
                seq_no,
                security_id,
                bid1: decode_level(bytes, 24, convert),
                ask1: decode_level(bytes, 40, convert),
                bid2: decode_level(bytes, 56, convert),
                ask2: decode_level(bytes, 72, convert),
                bid3: decode_level(bytes, 88, convert),
                ask3: decode_level(bytes, 104, convert),
                bid4: decode_level(bytes, 120, convert),
                ask4: decode_level(bytes, 136, convert),
                bid5: decode_level(bytes, 152, convert),
                ask5: decode_level(bytes, 168, convert),
            },
        )
    }
}

} // verus!
