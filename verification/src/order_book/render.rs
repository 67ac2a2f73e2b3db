//! Books as text.
use crate::order_book::model::BookView;
use crate::order_book::model::Change;
use crate::order_book::model::Levels;
use crate::order_book::order_book::OrderBook;
use crate::price::split_ticks;
use crate::text::append_decimal;
use crate::text::decimal_digits;
use crate::text::digit_char;
use crate::text::digit_str;
use std::collections::BTreeMap;
use vstd::prelude::*;
use vstd::std_specs::cmp::OrdSpec;
use vstd::std_specs::iter::IteratorSpec;

verus! {

broadcast use {vstd::std_specs::btree::group_btree_axioms, vstd::laws_cmp::group_laws_cmp};

/// `rows` lists `levels` from the highest price down: each level once.
pub open spec fn lists_descending(levels: Levels, rows: Seq<Change>) -> bool {
    &&& forall|i: int, j: int| 0 <= i < j < rows.len() ==> rows[i].0 > rows[j].0
    &&& forall|i: int|
        0 <= i < rows.len() ==> levels.contains_key(#[trigger] rows[i].0) && levels[rows[i].0]
            == rows[i].1
    &&& forall|price: i128| #[trigger]
        levels.contains_key(price) ==> exists|i: int| 0 <= i < rows.len() && rows[i].0 == price
}

/// The levels of one side, from the highest price down.
pub fn levels_descending(levels: &BTreeMap<i128, u64>) -> (rows: Vec<Change>)
    ensures
        lists_descending(levels@, rows@),
{
    let mut ascending: Vec<Change> = Vec::new();
    let iter = levels.iter();
    let ghost listed = iter.remaining();
    let ghost keys = listed.map_values(|kv: (&i128, &u64)| *kv.0);
    proof {
        assert(vstd::std_specs::btree::increasing_seq(keys));
        vstd::std_specs::btree::axiom_increasing_seq_meaning::<i128>(keys);
        assert forall|i: int, j: int| 0 <= i < j < keys.len() implies (#[trigger] keys[i]) < (
        #[trigger] keys[j]) by {
            assert(keys[i].cmp_spec(&keys[j]) is Less);
        }
    }
    for entry in it: iter
        invariant
            it.seq() == listed,
            ascending@.len() == it.index(),
            forall|j: int|
                0 <= j < ascending@.len() ==> (#[trigger] ascending@[j]) == (
                    *listed[j].0,
                    *listed[j].1,
                ),
    {
        ascending.push((*entry.0, *entry.1));
    }
    proof {
        assert(ascending@.len() == listed.len());
        assert forall|i: int, j: int| 0 <= i < j < ascending@.len() implies ascending@[i].0
            < ascending@[j].0 by {
            assert(keys[i] == ascending@[i].0 && keys[j] == ascending@[j].0);
        }
        assert forall|price: i128| #[trigger] levels@.contains_key(price) implies exists|i: int|
            0 <= i < ascending@.len() && ascending@[i].0 == price by {
            assert(listed.contains((&price, &levels@[price])));
            let i = choose|i: int| 0 <= i < listed.len() && listed[i] == (&price, &levels@[price]);
            assert(ascending@[i].0 == price);
        }
    }
    let mut rows: Vec<Change> = Vec::new();
    let mut left: usize = ascending.len();
    while left > 0
        invariant
            left <= ascending@.len(),
            rows@.len() == ascending@.len() - left,
            forall|j: int|
                0 <= j < rows@.len() ==> (#[trigger] rows@[j]) == ascending@[ascending@.len() - 1
                    - j],
        decreases left,
    {
        left -= 1;
        rows.push(ascending[left]);
    }
    proof {
        assert forall|price: i128| #[trigger] levels@.contains_key(price) implies exists|i: int|
            0 <= i < rows@.len() && rows@[i].0 == price by {
            let a = choose|a: int| 0 <= a < ascending@.len() && ascending@[a].0 == price;
            assert(rows@[ascending@.len() - 1 - a].0 == price);
        }
    }
    rows
}


/// Two listings of the same levels from the highest price down are the
/// same.
pub proof fn lemma_listing_unique(levels: Levels, a: Seq<Change>, b: Seq<Change>)
    requires
        lists_descending(levels, a),
        lists_descending(levels, b),
    ensures
        a == b,
    decreases a.len(),
{
    if a.len() == 0 {
        if b.len() > 0 {
            assert(levels.contains_key(b[0].0));
        }
        assert(a =~= b);
    } else {
        assert(levels.contains_key(a[0].0));
        let j = choose|j: int| 0 <= j < b.len() && b[j].0 == a[0].0;
        assert(levels.contains_key(b[0].0));
        let i = choose|i: int| 0 <= i < a.len() && a[i].0 == b[0].0;
        assert(a[0] == b[0]);
        let rest = levels.remove(a[0].0);
        let ta = a.drop_first();
        let tb = b.drop_first();
        assert forall|price: i128| #[trigger] rest.contains_key(price) implies (exists|i: int|
            0 <= i < ta.len() && ta[i].0 == price) && (exists|i: int|
            0 <= i < tb.len() && tb[i].0 == price) by {
            let ia = choose|i: int| 0 <= i < a.len() && a[i].0 == price;
            assert(ta[ia - 1] == a[ia]);
            let ib = choose|i: int| 0 <= i < b.len() && b[i].0 == price;
            assert(tb[ib - 1] == b[ib]);
        }
        assert forall|i: int| 0 <= i < ta.len() implies rest.contains_key(#[trigger] ta[i].0)
            && rest[ta[i].0] == ta[i].1 by {
            assert(ta[i] == a[i + 1]);
            assert(a[0].0 > a[i + 1].0);
        }
        assert forall|i: int| 0 <= i < tb.len() implies rest.contains_key(#[trigger] tb[i].0)
            && rest[tb[i].0] == tb[i].1 by {
            assert(tb[i] == b[i + 1]);
            assert(b[0].0 > b[i + 1].0);
        }
        assert forall|i: int, j: int| 0 <= i < j < ta.len() implies ta[i].0 > ta[j].0 by {
            assert(ta[i] == a[i + 1] && ta[j] == a[j + 1]);
        }
        assert forall|i: int, j: int| 0 <= i < j < tb.len() implies tb[i].0 > tb[j].0 by {
            assert(tb[i] == b[i + 1] && tb[j] == b[j + 1]);
        }
        lemma_listing_unique(rest, ta, tb);
        assert(a =~= seq![a[0]] + ta);
        assert(b =~= seq![b[0]] + tb);
    }
}

/// The levels of one side, from the highest price down.
pub open spec fn descending(levels: Levels) -> Seq<Change> {
    choose|rows: Seq<Change>| lists_descending(levels, rows)
}

/// The text that `chrono` gives for the time `timestamp`, in milliseconds
/// since 1970 read as a signed number, as year, month, day, hour, minute,
/// second and milliseconds in UTC; `None` where the time is out of range.
pub uninterp spec fn timestamp_text(timestamp: u64) -> Option<Seq<char>>;

/// `DateTime::<Utc>::from_timestamp_millis` and `DateTime::format`: the
/// text of the time `timestamp`.
#[verifier::external_body]
fn format_timestamp(timestamp: u64) -> (text: Option<String>)
    ensures
        match text {
            Some(t) => timestamp_text(timestamp) == Some(t@),
            None => timestamp_text(timestamp) is None,
        },
{
    match chrono::DateTime::<chrono::Utc>::from_timestamp_millis(timestamp as i64) {
        Some(time) => Some(time.format("%Y-%m-%d %H:%M:%S%.3f UTC").to_string()),
        None => None,
    }
}

/// The head of a book as text: the opening line and the lines of time,
/// sequence number and security id.
pub open spec fn head_text(
    timestamp: u64,
    time: Seq<char>,
    seq_no: u64,
    security_id: u64,
) -> Seq<char> {
    "OrderBook {\n  timestamp: "@ + decimal_digits(timestamp as nat) + " ("@ + time
        + ")\n  seq_no: "@ + decimal_digits(seq_no as nat) + "\n  security_id: "@
        + decimal_digits(security_id as nat) + "\n"@
}

/// Writes the head of a book.
fn format_head(timestamp: u64, time: &str, seq_no: u64, security_id: u64) -> (text: String)
    ensures
        text@ == head_text(timestamp, time@, seq_no, security_id),
{
    let mut text = String::from_str("OrderBook {\n  timestamp: ");
    append_decimal(&mut text, timestamp as u128);
    text.append(" (");
    text.append(time);
    text.append(")\n  seq_no: ");
    append_decimal(&mut text, seq_no as u128);
    text.append("\n  security_id: ");
    append_decimal(&mut text, security_id as u128);
    text.append("\n");
    text
}

/// The line of one level: the price, given by its sign and its magnitude
/// in whole units and hundredths, with two decimal places, and the
/// quantity.
pub open spec fn level_text(sign: Seq<char>, whole: u128, cents: u8, qty: u64) -> Seq<char> {
    "    "@ + sign + decimal_digits(whole as nat) + "."@ + seq![
        digit_char((cents / 10) as nat),
        digit_char((cents % 10) as nat),
    ] + " @ "@ + decimal_digits(qty as nat) + "\n"@
}

/// Writes the line of one level.
fn format_level(sign: &str, whole: u128, cents: u8, qty: u64) -> (text: String)
    requires
        cents < 100,
    ensures
        text@ == level_text(sign@, whole, cents, qty),
{
    let mut text = String::from_str("    ");
    text.append(sign);
    append_decimal(&mut text, whole);
    text.append(".");
    text.append(digit_str(cents / 10));
    text.append(digit_str(cents % 10));
    text.append(" @ ");
    append_decimal(&mut text, qty as u128);
    text.append("\n");
    proof {
        assert(text@ =~= level_text(sign@, whole, cents, qty));
    }
    text
}

/// The text of the time of a book.
pub open spec fn time_text(timestamp: u64) -> Seq<char> {
    match timestamp_text(timestamp) {
        Some(text) => text,
        None => "Invalid timestamp"@,
    }
}

/// The magnitude of a number of ticks.
pub open spec fn magnitude(ticks: i128) -> int {
    if ticks < 0 {
        -ticks
    } else {
        ticks as int
    }
}

/// The line of one level.
pub open spec fn row_text(row: Change) -> Seq<char> {
    level_text(
        if row.0 < 0 {
            "-"@
        } else {
            ""@
        },
        (magnitude(row.0) / 100) as u128,
        (magnitude(row.0) % 100) as u8,
        row.1,
    )
}

/// The lines of `rows`, in order.
pub open spec fn rows_text(rows: Seq<Change>) -> Seq<char>
    decreases rows.len(),
{
    if rows.len() == 0 {
        Seq::empty()
    } else {
        rows_text(rows.drop_last()) + row_text(rows.last())
    }
}

/// The text of a book: its head, its asks from the highest price down, and
/// its bids from the highest price down.
pub open spec fn book_text(book: BookView) -> Seq<char> {
    head_text(book.timestamp, time_text(book.timestamp), book.seq_no, book.security_id)
        + "  asks: [\n"@ + rows_text(descending(book.asks)) + "  ]\n  bids: [\n"@ + rows_text(
        descending(book.bids),
    ) + "  ]\n}\n"@
}

/// Appends the lines of one side, from the highest price down, to `text`.
fn append_rows(text: &mut String, levels: &BTreeMap<i128, u64>)
    ensures
        final(text)@ == old(text)@ + rows_text(descending(levels@)),
{
    let rows = levels_descending(levels);
    proof {
        assert(lists_descending(levels@, rows@));
        lemma_listing_unique(levels@, rows@, descending(levels@));
        assert(rows@.take(0) =~= Seq::<Change>::empty());
        assert(text@ =~= old(text)@ + rows_text(rows@.take(0)));
    }
    let mut i: usize = 0;
    while i < rows.len()
        invariant
            i <= rows@.len(),
            text@ == old(text)@ + rows_text(rows@.take(i as int)),
        decreases rows@.len() - i,
    {
        let (ticks, qty) = rows[i];
        let (negative, whole, cents) = split_ticks(ticks);
        let sign = if negative {
            "-"
        } else {
            ""
        };
        let line = format_level(sign, whole, cents, qty);
        proof {
            assert(rows@.take(i + 1).drop_last() =~= rows@.take(i as int));
            assert(whole == magnitude(ticks) / 100 && cents == magnitude(ticks) % 100);
            assert(line@ == row_text(rows@[i as int]));
        }
        text.append(line.as_str());
        proof {
            assert(text@ =~= old(text)@ + rows_text(rows@.take(i + 1)));
        }
        i += 1;
    }
    proof {
        assert(rows@.take(rows@.len() as int) =~= rows@);
    }
}

impl OrderBook {
    /// The book as text: time, sequence number and security id, then the
    /// asks and the bids, each from the highest price down, one level to a
    /// line with its price to two decimal places.
    pub fn to_text(&self) -> (text: String)
        ensures
            text@ == book_text(self@),
    {
        let time = match format_timestamp(self.timestamp) {
            Some(time) => time,
            None => String::from_str("Invalid timestamp"),
        };
        let mut text = format_head(self.timestamp, time.as_str(), self.seq_no, self.security_id);
        text.append("  asks: [\n");
        append_rows(&mut text, &self.asks);
        text.append("  ]\n  bids: [\n");
        append_rows(&mut text, &self.bids);
        text.append("  ]\n}\n");
        text
    }
}

} // verus!
