//! The whole conversion, from Markdown text to tab-separated values.

use vstd::prelude::*;

use vstd::utf8::encode_utf8;

use crate::error::{TableError, TableErrorView};
use crate::extract::{cell_text, is_row_of_cells, is_single_table, parse_markdown_table, parsed_table};
use crate::gfm::gfm_document;
use crate::reading::{lemma_regular_table_round_trip, read_table};
use crate::tsv::{table_bytes, utf8_table, write_table_as_csv};

verus! {

/// What the conversion of `input` gives: the records of the table that the
/// text holds, or the reason why it holds none.
pub open spec fn converted(input: Seq<char>) -> Result<Seq<u8>, TableErrorView> {
    match parsed_table(input) {
        Ok(table) => Ok(table_bytes(utf8_table(table))),
        Err(refusal) => Err(refusal),
    }
}

/// A regular table is converted whole: where the parser's tree of `input` is
/// one table of `rows` rows, each of `columns` cells with `columns` at least
/// one, each cell with its content in place in `input`, the conversion gives
/// bytes that are read back as exactly `rows` records of exactly `columns`
/// fields, each field the UTF-8 of the source text of the cell in its place.
pub proof fn lemma_regular_table_is_converted(input: Seq<char>, rows: nat, columns: nat)
    requires
        is_single_table(gfm_document(input)),
        columns >= 1,
        gfm_document(input).blocks[0]->Table_0.len() == rows,
        forall|r: int|
            0 <= r < rows ==> {
                &&& is_row_of_cells(#[trigger] gfm_document(input).blocks[0]->Table_0[r], input)
                &&& gfm_document(input).blocks[0]->Table_0[r]->Row_0.len() == columns
            },
    ensures
        converted(input) matches Ok(bytes) && read_table(bytes) matches Some(records) && {
            &&& records.len() == rows
            &&& forall|r: int| 0 <= r < rows ==> (#[trigger] records[r]).len() == columns
            &&& forall|r: int, c: int|
                0 <= r < rows && 0 <= c < columns ==> #[trigger] records[r][c] == encode_utf8(
                    cell_text(gfm_document(input).blocks[0]->Table_0[r]->Row_0[c], input)->Ok_0,
                )
        },
{
    lemma_regular_table_round_trip(gfm_document(input), input, rows, columns);
}

/// Converts a document that holds one table into tab-separated values.
///
/// Text that the parser refuses or that is not exactly one table of rows of
/// cells gives the error and no output at all. Of a table come the records
/// of its rows, in order.
pub fn convert(input: &str) -> (outcome: Result<Vec<u8>, TableError>)
    ensures
        match outcome {
            Ok(bytes) => converted(input@) == Ok::<Seq<u8>, TableErrorView>(bytes@),
            Err(error) => converted(input@) == Err::<Seq<u8>, TableErrorView>(error.deep_view()),
        },
{
    match parse_markdown_table(input) {
        Ok(table) => write_table_as_csv(&table),
        Err(error) => Err(error),
    }
}

} // verus!
