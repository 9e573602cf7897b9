//! Error
//!
//! The error taxonomy of the library. Every failure is surfaced to the host
//! as a value of this type; the verified functions never panic.

use vstd::prelude::*;

verus! {

/// The main error type for the whole crate.
#[derive(Clone, PartialEq, Eq, Debug)]
pub enum Error {
    /// A share serialization held a character outside the bech32 alphabet.
    BadBech32Char { ch: char },
    /// A share serialization held the wrong number of cell characters.
    BadShareDataLen { len: usize },
    /// The data length implied by the requested size is odd (unsupported).
    OddLength { data_len: usize },
    /// The requested size cannot even hold the HRP and the checksum.
    TooShort { minimum: usize, actual: usize },
    /// A cell id did not match the `inp_<share>_<row>_<col>` grammar.
    UnknownCell { id: String, reason: &'static str },
    /// An edit targeted a row the worksheet does not have.
    InvalidRow { row: usize, n_rows: usize },
    /// An edit targeted a cell its row does not have.
    InvalidCell { row: usize, cell: usize, n_cells: usize },
    /// A session method was handed a share index with no worksheet.
    InvalidShare { idx: usize, n_shares: usize },
    /// A session serialization was malformed.
    BadSessionStr { reason: &'static str },
}

} // verus!
