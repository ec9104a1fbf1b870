//! The `csv` crate's writer, as far as this library uses it.
//!
//! Nothing in this file is proved: it states what the `csv` crate is taken
//! to do.

use vstd::prelude::*;

use crate::tsv::{record_bytes, utf8_row};

verus! {

/// The error of the `csv` crate's writer.
#[verifier::external_type_specification]
#[verifier::external_body]
pub struct ExCsvError(csv::Error);

/// Writes one record with `csv::Writer::write_record`, on a writer of its own
/// that is built with a tab as delimiter over an empty `Vec<u8>`, and hands
/// back what `into_inner` gives.
///
/// The contract claims that the call succeeds and which bytes it gives, the
/// fields being the UTF-8 of the strings: each field as it stands, or between
/// two quotes and with its quotes doubled where it holds a tab, a double
/// quote, a carriage return or a line feed; a tab between the fields; a line
/// feed at the end; and a pair of quotes where nothing else was written. The
/// writer fails only where its sink does or where a record has another
/// number of fields than the writer's first: here the sink is a `Vec<u8>`
/// and the record is the first.
#[verifier::external_body]
pub(crate) fn encode_record(row: &Vec<String>) -> (encoded: Result<Vec<u8>, csv::Error>)
    ensures
        encoded is Ok,
        encoded matches Ok(bytes) ==> bytes@ == record_bytes(utf8_row(row.deep_view())),
{
    let mut writer = csv::WriterBuilder::new().delimiter(b'\t').from_writer(Vec::new());
    writer.write_record(row)?;
    writer.into_inner().map_err(|error| csv::Error::from(error.into_error()))
}

/// Calls `to_string` on the writer's error, which gives its message. Nothing
/// is claimed of the text.
#[verifier::external_body]
pub(crate) fn csv_error_text(error: &csv::Error) -> (text: String) {
    error.to_string()
}

} // verus!
