//! Updates and their decoder, which keeps the arenas of the securities.
use crate::batched_deque::batched_deque::BatchedDeque;
use crate::batched_deque::batched_deque::BatchGuard;
use crate::batched_deque::model::ArenaView;
use crate::batched_deque::model::batch_held;
use crate::batched_deque::model::first_err;
use crate::batched_deque::model::fresh_headers;
use crate::batched_deque::model::lemma_first_err;
use crate::batched_deque::model::ok_values;
use crate::parsing::parser::check_available;
use crate::parsing::parser::DefaultParser;
use crate::parsing::parser::le_u64;
use crate::parsing::parser::Parser;
use crate::parsing::parser::ParserError;
use crate::parsing::parser::read_u64;
use crate::parsing::parser::shortfall;
use crate::parsing::parser::unexpected_eof;
use crate::price::DecimalParts;
use crate::text::append_decimal;
use crate::text::decimal_digits;
use std::collections::HashMap;
use vstd::prelude::*;

verus! {

broadcast use vstd::std_specs::hash::group_hash_axioms;

/// One change of an update: the new quantity at a price on one side, where
/// side 0 is bid and side 1 is ask. The price is `None` where the feed's
/// value is no decimal number.
#[derive(Debug, Clone, Copy)]
pub struct Level {
    pub side: u8,
    pub price: Option<DecimalParts>,
    pub qty: u64,
}

/// An incremental update of one book. Its changes lie in the arena of its
/// security, under the handle `updates`.
#[derive(Debug)]
pub struct OrderBookUpdate {
    pub timestamp: u64,
    pub seq_no: u64,
    pub security_id: u64,
    pub updates: BatchGuard,
}


/// Bytes of the head of an update on the wire: time, sequence number,
/// security id and number of changes.
pub const HEADER_SIZE: usize = 32;

/// Bytes of one change on the wire: the side, the price as a 64-bit binary
/// float, and the quantity.
pub const LEVEL_SIZE: usize = 17;

/// The most changes that one update may carry.
pub const MAX_NUM_UPDATES: u64 = 100000;

/// Room that a new arena is made with.
pub const DEFAULT_UPDATE_DEQUE_CAPACITY: usize = 10000;

/// The text of the error for an update of `num_updates` changes, which
/// are too many.
pub open spec fn too_many_text(num_updates: u64) -> Seq<char> {
    "Number of updates is too large: "@ + decimal_digits(num_updates as nat)
}

/// Writes the error for an update of too many changes.
fn format_too_many(num_updates: u64) -> (text: String)
    ensures
        text@ == too_many_text(num_updates),
{
    let mut text = String::from_str("Number of updates is too large: ");
    append_decimal(&mut text, num_updates as u128);
    text
}

/// The text of the error for an arena that has no absolute index left.
pub open spec fn exhausted_text() -> Seq<char> {
    "The arena of the security has run out of indices"@
}

/// `level` is what the seventeen bytes from `at` on hold: its side is the
/// first byte, its price is what `convert` makes of the next eight, its
/// quantity is read from the last eight.
pub open spec fn level_at<F: Fn(u64) -> Option<DecimalParts>>(
    convert: &F,
    bytes: Seq<u8>,
    at: int,
    level: Level,
) -> bool {
    &&& level.side == bytes[at]
    &&& call_ensures(*convert, (le_u64(bytes, at + 1),), level.price)
    &&& level.qty == le_u64(bytes, at + 9)
}

/// Bytes of an update of `num_updates` changes.
pub open spec fn update_size(num_updates: u64) -> nat {
    (HEADER_SIZE + LEVEL_SIZE * num_updates) as nat
}

/// Bytes of the update whose head is at the front of `head`, if the head is
/// there in full and announces no more changes than an update may carry.
pub fn update_record_size(head: &[u8]) -> (size: Option<usize>)
    ensures
        size == if head@.len() >= HEADER_SIZE && le_u64(head@, 24) <= MAX_NUM_UPDATES {
            Some(update_size(le_u64(head@, 24)) as usize)
        } else {
            None::<usize>
        },
        size is Some ==> size->Some_0 == update_size(le_u64(head@, 24)),
{
    if head.len() < HEADER_SIZE {
        return None;
    }
    let num_updates = read_u64(head, 24);
    if num_updates > MAX_NUM_UPDATES {
        return None;
    }
    let count: usize = num_updates as usize;
    Some(HEADER_SIZE + LEVEL_SIZE * count)
}

/// Decodes the change at `at`.
pub fn decode_level<F: Fn(u64) -> Option<DecimalParts>>(
    bytes: &[u8],
    at: usize,
    convert: &F,
) -> (level: Level)
    requires
        at + LEVEL_SIZE <= bytes@.len(),
        forall|bits: u64| call_requires(convert, (bits,)),
    ensures
        level_at(convert, bytes@, at as int, level),
{
    let len = bytes.len();
    assert(at + LEVEL_SIZE <= len);
    let side = bytes[at];
    let price = convert(read_u64(bytes, at + 1));
    let qty = read_u64(bytes, at + 9);
    Level { side, price, qty }
}

/// The decoder of one change.
#[derive(Debug)]
pub struct LevelParser;

impl Parser<Level> for LevelParser {
    open spec fn wf(&self) -> bool {
        true
    }

    /// Decodes the change at the front of `bytes`; fewer than seventeen
    /// bytes are an input that ends inside a record.
    fn read<F: Fn(u64) -> Option<DecimalParts>>(&mut self, bytes: &[u8], convert: &F) -> (result:
        Result<Level, ParserError>)
        ensures
            match result {
                Ok(level) => bytes@.len() >= LEVEL_SIZE && level_at(convert, bytes@, 0, level),
                Err(e) => bytes@.len() < LEVEL_SIZE && e is Io,
            },
    {
        if bytes.len() < LEVEL_SIZE {
            return Err(ParserError::Io(unexpected_eof()));
        }
        Ok(decode_level(bytes, 0, convert))
    }
}

/// The arena of `security_id` among `arenas`: empty where there is none
/// yet.
pub open spec fn arena_of(
    arenas: Map<u64, BatchedDeque<Level>>,
    security_id: u64,
) -> ArenaView<Level> {
    if arenas.contains_key(security_id) {
        arenas[security_id].state@
    } else {
        ArenaView { base: 0, entries: Seq::empty(), headers: Seq::empty() }
    }
}

/// The decoder of updates. It keeps one arena for each security and puts
/// the changes of each update it decodes into the arena of the update's
/// security.
#[derive(Debug)]
pub struct OrderBookUpdateParser {
    pub security_id_to_deque: HashMap<u64, BatchedDeque<Level>>,
}

impl Default for OrderBookUpdateParser {
    fn default() -> (parser: Self)
        ensures
            parser.security_id_to_deque@ == Map::<u64, BatchedDeque<Level>>::empty(),
    {
        OrderBookUpdateParser { security_id_to_deque: HashMap::new() }
    }
}

impl DefaultParser<OrderBookUpdate> for OrderBookUpdate {
    type ParserType = OrderBookUpdateParser;

    fn default_parser() -> (parser: OrderBookUpdateParser)
        ensures
            parser.security_id_to_deque@ == Map::<u64, BatchedDeque<Level>>::empty(),
    {
        OrderBookUpdateParser { security_id_to_deque: HashMap::new() }
    }
}

impl OrderBookUpdateParser {
    /// Number of securities that have an arena.
    pub fn arena_count(&self) -> (n: usize)
        ensures
            n == self.security_id_to_deque@.len(),
    {
        self.security_id_to_deque.len()
    }

    /// Takes the arena of `security_id` out of the decoder, a new one where
    /// there is none yet. It is to be put back with [`Self::put_deque`].
    pub fn take_deque(&mut self, security_id: u64) -> (deque: BatchedDeque<Level>)
        requires
            old(self).wf(),
        ensures
            final(self).wf(),
            deque.state.wf(),
            deque.state@ == arena_of(old(self).security_id_to_deque@, security_id),
            final(self).security_id_to_deque@ == old(self).security_id_to_deque@.remove(
                security_id,
            ),
    {
        match self.security_id_to_deque.remove(&security_id) {
            Some(deque) => deque,
            None => {
                proof {
                    assert(self.security_id_to_deque@ =~= old(self).security_id_to_deque@.remove(
                        security_id,
                    ));
                }
                BatchedDeque::new(DEFAULT_UPDATE_DEQUE_CAPACITY)
            },
        }
    }

    /// Puts `deque` in as the arena of `security_id`.
    pub fn put_deque(&mut self, security_id: u64, deque: BatchedDeque<Level>)
        requires
            old(self).wf(),
            deque.state.wf(),
        ensures
            final(self).wf(),
            final(self).security_id_to_deque@ == old(self).security_id_to_deque@.insert(
                security_id,
                deque,
            ),
    {
        self.security_id_to_deque.insert(security_id, deque);
    }
}

/// The changes that `bytes` holds behind the head of an update are
/// `levels`.
pub open spec fn levels_at<F: Fn(u64) -> Option<DecimalParts>>(
    convert: &F,
    bytes: Seq<u8>,
    levels: Seq<Level>,
) -> bool {
    forall|i: int|
        0 <= i < levels.len() ==> level_at(
            convert,
            bytes,
            HEADER_SIZE + LEVEL_SIZE * i,
            #[trigger] levels[i],
        )
}

impl Parser<OrderBookUpdate> for OrderBookUpdateParser {
    /// Every arena is well formed.
    open spec fn wf(&self) -> bool {
        forall|id: u64| #[trigger]
            self.security_id_to_deque@.contains_key(id)
                ==> self.security_id_to_deque@[id].state.wf()
    }

    /// Decodes the update at the front of `bytes` and appends its changes,
    /// as one batch, to the arena of its security.
    ///
    /// Fewer than eight bytes count as the end of the input, fewer than the
    /// head as an input that ends inside a record, and so do fewer bytes
    /// than the changes take. An update of more than 100000 changes is
    /// refused. Once the head is accepted the security has an arena; only an
    /// update that is decoded in full adds to it.
    fn read<F: Fn(u64) -> Option<DecimalParts>>(&mut self, bytes: &[u8], convert: &F) -> (result:
        Result<OrderBookUpdate, ParserError>)
        ensures
            match shortfall(bytes@.len(), HEADER_SIZE as nat) {
                Some(true) => {
                    &&& result is Err && result->Err_0 is ExpectedEof
                    &&& final(self).security_id_to_deque@ == old(self).security_id_to_deque@
                },
                Some(false) => {
                    &&& result is Err && result->Err_0 is Io
                    &&& final(self).security_id_to_deque@ == old(self).security_id_to_deque@
                },
                None => if le_u64(bytes@, 24) > MAX_NUM_UPDATES {
                    &&& result is Err
                    &&& result->Err_0 matches ParserError::Custom(text) && text@ == too_many_text(
                        le_u64(bytes@, 24),
                    )
                    &&& final(self).security_id_to_deque@ == old(self).security_id_to_deque@
                } else {
                    let security_id = le_u64(bytes@, 16);
                    let num_updates = le_u64(bytes@, 24);
                    let before = arena_of(old(self).security_id_to_deque@, security_id);
                    let after = arena_of(final(self).security_id_to_deque@, security_id);
                    &&& final(self).security_id_to_deque@.dom() == old(
                        self,
                    ).security_id_to_deque@.dom().insert(security_id)
                    &&& forall|id: u64|
                        id != security_id && old(self).security_id_to_deque@.contains_key(id)
                            ==> final(self).security_id_to_deque@[id] == old(
                            self,
                        ).security_id_to_deque@[id]
                    &&& if bytes@.len() < update_size(num_updates) {
                        result is Err && result->Err_0 is Io && after == before
                    } else if before.base + before.entries.len() + num_updates > usize::MAX {
                        &&& result is Err
                        &&& result->Err_0 matches ParserError::Custom(text) && text@
                            == exhausted_text()
                        &&& after == before
                    } else {
                        &&& result matches Ok(update)
                        &&& update.timestamp == le_u64(bytes@, 0)
                        &&& update.seq_no == le_u64(bytes@, 8)
                        &&& update.security_id == security_id
                        &&& update.updates.owned
                        &&& update.updates.batch.start_index == before.base
                            + before.entries.len()
                        &&& update.updates.batch.len == num_updates
                        &&& batch_held(after, update.updates.batch)
                        &&& after.base == before.base
                        &&& after.headers == before.headers + fresh_headers(num_updates as nat)
                        &&& after.entries.len() == before.entries.len() + num_updates
                        &&& after.entries.subrange(0, before.entries.len() as int)
                            == before.entries
                        &&& levels_at(
                            convert,
                            bytes@,
                            after.entries.subrange(
                                before.entries.len() as int,
                                after.entries.len() as int,
                            ),
                        )
                    }
                },
            },
    {
        match check_available(bytes.len(), HEADER_SIZE) {
            Ok(()) => {},
            Err(e) => {
                return Err(e);
            },
        }
        let timestamp = read_u64(bytes, 0);
        let seq_no = read_u64(bytes, 8);
        let security_id = read_u64(bytes, 16);
        let num_updates = read_u64(bytes, 24);
        if num_updates > MAX_NUM_UPDATES {
            return Err(ParserError::Custom(format_too_many(num_updates)));
        }
        let ghost arenas = self.security_id_to_deque@;
        let mut deque = self.take_deque(security_id);
        let ghost before = deque.state@;
        let count: usize = num_updates as usize;
        let needed: usize = HEADER_SIZE + LEVEL_SIZE * count;
        if bytes.len() < needed {
            self.put_deque(security_id, deque);
            proof {
                assert(self.security_id_to_deque@.dom() =~= arenas.dom().insert(security_id));
            }
            return Err(ParserError::Io(unexpected_eof()));
        }
        if count > usize::MAX - deque.state.end_index() {
            self.put_deque(security_id, deque);
            proof {
                assert(self.security_id_to_deque@.dom() =~= arenas.dom().insert(security_id));
            }
            return Err(
                ParserError::Custom(
                    String::from_str("The arena of the security has run out of indices"),
                ),
            );
        }
        let mut items: Vec<Result<Level, ParserError>> = Vec::new();
        let mut i: usize = 0;
        while i < count
            invariant
                i <= count <= MAX_NUM_UPDATES,
                needed == HEADER_SIZE + LEVEL_SIZE * count,
                needed <= bytes@.len(),
                forall|bits: u64| call_requires(convert, (bits,)),
                items@.len() == i,
                forall|j: int|
                    0 <= j < i ==> (#[trigger] items@[j]) is Ok && level_at(
                        convert,
                        bytes@,
                        HEADER_SIZE + LEVEL_SIZE * j,
                        items@[j]->Ok_0,
                    ),
            decreases count - i,
        {
            let level = decode_level(bytes, HEADER_SIZE + LEVEL_SIZE * i, convert);
            items.push(Ok(level));
            i += 1;
        }
        proof {
            lemma_first_err(items@);
            if first_err(items@) < items@.len() {
                assert(items@[first_err(items@)] is Ok);
            }
        }
        let ghost levels = ok_values(items@);
        let pushed = deque.push_back_batch(items);
        let guard = match pushed {
            Ok(guard) => guard,
            Err(e) => {
                self.put_deque(security_id, deque);
                return Err(e);
            },
        };
        proof {
            let after = deque.state@;
            assert(after.entries.subrange(0, before.entries.len() as int) =~= before.entries);
            assert(after.entries.subrange(before.entries.len() as int, after.entries.len() as int)
                =~= levels);
        }
        self.put_deque(security_id, deque);
        proof {
            assert(self.security_id_to_deque@.dom() =~= arenas.dom().insert(security_id));
        }
        Ok(OrderBookUpdate { timestamp, seq_no, security_id, updates: guard })
    }
}

} // verus!
