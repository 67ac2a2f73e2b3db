//! Why a record is not applied.
use crate::text::append_decimal;
use crate::text::decimal_digits;
use vstd::prelude::*;

verus! {

/// The record that an error speaks of.
#[derive(Debug)]
pub struct UpdateMessageInfo {
    pub security_id: u64,
    pub seq_no: u64,
}

/// Why a record was not applied.
#[derive(Debug)]
pub enum Errors {
    /// The update is more than one step ahead of the book.
    SequenceNumberGap,
    /// The record is not ahead of the book.
    OldSequenceNumber,
    /// A price is no decimal or no multiple of the tick.
    InvalidPrice(UpdateMessageInfo, String),
    /// A side is neither bid nor ask.
    InvalidSide(UpdateMessageInfo, String),
    /// The record is for another security than the book.
    SecurityIdMismatch,
    /// No book exists for the record's security.
    OrderBookNotFound,
}


/// The text of the report on a record of the kind `record_type` that has a
/// fault named by `fault` and described by `detail`.
pub open spec fn fault_text(
    record_type: Seq<char>,
    info: UpdateMessageInfo,
    fault: Seq<char>,
    detail: Seq<char>,
) -> Seq<char> {
    record_type + " for security "@ + decimal_digits(info.security_id as nat) + " with seq_no "@
        + decimal_digits(info.seq_no as nat) + " has invalid "@ + fault + ": "@ + detail
        + ". The record will be ignored."@
}

/// The line that reports `error` on a record of the kind `record_type`, if
/// the error is one to report: a record with an invalid price or side is
/// reported and left out, a record routed to the wrong book is reported as
/// a fault of the program, and the errors that belong to the recovery from
/// gaps are passed over in silence.
pub open spec fn report_text(record_type: Seq<char>, error: Errors) -> Option<Seq<char>> {
    match error {
        Errors::InvalidPrice(info, detail) => Some(
            fault_text(record_type, info, "price"@, detail@),
        ),
        Errors::InvalidSide(info, detail) => Some(fault_text(record_type, info, "side"@, detail@)),
        Errors::SecurityIdMismatch => Some("Internal error: Security ID mismatch."@),
        Errors::OrderBookNotFound => None,
        Errors::SequenceNumberGap => None,
        Errors::OldSequenceNumber => None,
    }
}

/// Writes the report on a faulty record.
fn fault_line(record_type: &str, info: &UpdateMessageInfo, fault: &str, detail: &str) -> (line:
    String)
    ensures
        line@ == fault_text(record_type@, *info, fault@, detail@),
{
    let mut line = String::from_str(record_type);
    line.append(" for security ");
    append_decimal(&mut line, info.security_id as u128);
    line.append(" with seq_no ");
    append_decimal(&mut line, info.seq_no as u128);
    line.append(" has invalid ");
    line.append(fault);
    line.append(": ");
    line.append(detail);
    line.append(". The record will be ignored.");
    proof {
        assert(line@ =~= fault_text(record_type@, *info, fault@, detail@));
    }
    line
}

/// The line that reports `error` on a record of the kind `record_type`, or
/// `None` where the error is passed over in silence.
pub fn report_line(record_type: &str, error: &Errors) -> (line: Option<String>)
    ensures
        match line {
            Some(text) => report_text(record_type@, *error) == Some(text@),
            None => report_text(record_type@, *error) is None,
        },
{
    match error {
        Errors::InvalidPrice(info, detail) => Some(
            fault_line(record_type, info, "price", detail.as_str()),
        ),
        Errors::InvalidSide(info, detail) => Some(
            fault_line(record_type, info, "side", detail.as_str()),
        ),
        Errors::SecurityIdMismatch => Some(
            String::from_str("Internal error: Security ID mismatch."),
        ),
        Errors::OrderBookNotFound => None,
        Errors::SequenceNumberGap => None,
        Errors::OldSequenceNumber => None,
    }
}

} // verus!
