//! The Markdown parser, as far as this library uses it.
//!
//! Nothing in this file is proved: it states what the `markdown` crate is
//! taken to do.

use markdown::mdast::Node::{Table, TableCell, TableRow};
use markdown::{to_mdast, ParseOptions};
use vstd::prelude::*;

use crate::tree::RowChild::{self, Cell};
use crate::tree::TableChild::{self, Row};
use crate::tree::{Block, Document, DocumentView, Span};

verus! {

/// The error of `markdown::to_mdast`.
#[verifier::external_type_specification]
#[verifier::external_body]
pub struct ExMessage(markdown::message::Message);

/// The tree that `markdown::to_mdast` builds from `input` under
/// `markdown::ParseOptions::gfm()`.
///
/// The tree is kept down to the cells. Of each cell it holds the offsets
/// that the positions of the cell's children give, and of the root what
/// `{:#?}` prints for it.
pub uninterp spec fn gfm_document(input: Seq<char>) -> DocumentView;

/// Calls `markdown::to_mdast` with `markdown::ParseOptions::gfm()` and copies
/// the tree down to the cells.
///
/// The contract claims that the call succeeds and that the parser is a
/// function of its input: the same text always gives the same tree. The
/// parser reports an error only of MDX, which these options leave off. The
/// contract claims nothing of the offsets.
#[verifier::external_body]
pub(crate) fn parse_gfm(input: &str) -> (parsed: Result<Document, markdown::message::Message>)
    ensures
        parsed is Ok,
        parsed matches Ok(document) ==> gfm_document(input@) == document.deep_view(),
{
    let root = to_mdast(input, &ParseOptions::gfm())?;
    Ok(Document { dump: format!("{root:#?}"), blocks: root.children().into_iter().flatten().map(|block| match block {
        Table(table) => Block::Table(table.children.iter().map(|row| match row {
            TableRow(row) => Row(row.children.iter().map(|cell| match cell {
                TableCell(cell) => Cell(cell.children.iter().map(|node| node.position().map(|at| Span { start: at.start.offset, end: at.end.offset })).collect()),
                _ => RowChild::Other,
            }).collect()),
            _ => TableChild::Other,
        }).collect()),
        _ => Block::Other,
    }).collect() })
}

/// Calls `to_string` on the parser's error, which gives its message. Nothing
/// is claimed of the text.
#[verifier::external_body]
pub(crate) fn message_text(message: &markdown::message::Message) -> (text: String) {
    message.to_string()
}

} // verus!
