//! What the decoders of the two kinds of record share.
use crate::price::DecimalParts;
use vstd::bytes::spec_u64_from_le_bytes;
use vstd::bytes::u64_from_le_bytes;
use vstd::prelude::*;
use vstd::slice::slice_subrange;

verus! {

/// `std::io::Error`, carried through as it is.
#[verifier::external_type_specification]
#[verifier::external_body]
pub struct ExIoError(std::io::Error);

/// Why no record was decoded.
#[derive(Debug)]
pub enum ParserError {
    /// The input ends where a record would begin.
    ExpectedEof,
    /// The record breaks a rule of the format.
    Custom(String),
    /// The input could not be read, or ends inside a record.
    Io(std::io::Error),
}

/// `std::io::Error::from` on `ErrorKind::UnexpectedEof`: the error of an
/// input that ends inside a record. Nothing is claimed of it.
#[verifier::external_body]
pub(crate) fn unexpected_eof() -> std::io::Error {
    std::io::Error::from(std::io::ErrorKind::UnexpectedEof)
}

/// The unsigned 64-bit number that the eight bytes from `at` on hold, least
/// significant byte first.
pub open spec fn le_u64(bytes: Seq<u8>, at: int) -> u64 {
    spec_u64_from_le_bytes(bytes.subrange(at, at + 8))
}

/// Reads the unsigned 64-bit number at `at`.
pub fn read_u64(bytes: &[u8], at: usize) -> (value: u64)
    requires
        at + 8 <= bytes@.len(),
    ensures
        value == le_u64(bytes@, at as int),
{
    let len = bytes.len();
    assert(at + 8 <= len);
    u64_from_le_bytes(slice_subrange(bytes, at, at + 8))
}

/// What the input gives where a record of `size` bytes is due and
/// `available` bytes are left: fewer than the eight bytes of the first
/// field count as the end of the input, fewer than the record as an input
/// that ends inside a record.
pub open spec fn shortfall(available: nat, size: nat) -> Option<bool> {
    if available < 8 {
        Some(true)
    } else if available < size {
        Some(false)
    } else {
        None
    }
}

/// The error for a record of `size` bytes of which only `available` bytes
/// are there, if that is too few.
pub fn check_available(available: usize, size: usize) -> (result: Result<(), ParserError>)
    ensures
        match shortfall(available as nat, size as nat) {
            None => result is Ok,
            Some(true) => result is Err && result->Err_0 is ExpectedEof,
            Some(false) => result is Err && result->Err_0 is Io,
        },
{
    if available < 8 {
        Err(ParserError::ExpectedEof)
    } else if available < size {
        Err(ParserError::Io(unexpected_eof()))
    } else {
        Ok(())
    }
}

/// A decoder of one kind of record.
///
/// `read` decodes the record at the front of `bytes`. A price comes on the
/// wire as a 64-bit binary float; `convert` turns its bits into the parts of
/// the decimal that the float stands for, or into `None` where it stands for
/// none.
pub trait Parser<T> {
    /// What holds of the decoder between two records.
    spec fn wf(&self) -> bool;

    fn read<F: Fn(u64) -> Option<DecimalParts>>(&mut self, bytes: &[u8], convert: &F) -> (result:
        Result<T, ParserError>)
        requires
            old(self).wf(),
            forall|bits: u64| call_requires(convert, (bits,)),
        ensures
            final(self).wf(),
    ;
}

/// A kind of record that comes with a decoder.
pub trait DefaultParser<T> {
    type ParserType: Parser<T>;

    /// A decoder of the records of this kind, ready to read.
    fn default_parser() -> (parser: Self::ParserType)
        ensures
            parser.wf(),
    ;
}

} // verus!
