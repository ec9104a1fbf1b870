//! The ways in which a conversion fails.

use vstd::prelude::*;
use vstd::string::StringExecFns;

verus! {

/// The node kind that a place in the tree asks for.
#[derive(Debug, Clone, Copy, PartialEq, Eq)]
pub enum Expected {
    Table,
    Row,
    Cell,
}

/// Why a conversion failed.
#[derive(Debug, PartialEq, Eq)]
pub enum TableError {
    /// The parser refused the text; `message` is the parser's own.
    Parse { message: String },
    /// The text was parsed, but the tree is not one table of rows of cells:
    /// `expected` says what is missing at the first place, in document
    /// order, where the tree fails, and `dump` renders the whole tree.
    Shape { expected: Expected, dump: String },
    /// Writing the records failed; `message` is the writer's own.
    Io { message: String },
}

/// The mathematical value of a [`TableError`].
pub enum TableErrorView {
    Parse { message: Seq<char> },
    Shape { expected: Expected, dump: Seq<char> },
    Io { message: Seq<char> },
}

impl DeepView for TableError {
    type V = TableErrorView;

    open spec fn deep_view(&self) -> TableErrorView {
        match *self {
            TableError::Parse { message } => TableErrorView::Parse { message: message@ },
            TableError::Shape { expected, dump } => TableErrorView::Shape { expected, dump: dump@ },
            TableError::Io { message } => TableErrorView::Io { message: message@ },
        }
    }
}

/// The words that open the description of a shape error.
pub open spec fn shape_prefix(expected: Expected) -> Seq<char> {
    match expected {
        Expected::Table => "input isn't a table: "@,
        Expected::Row => "input isn't a row: "@,
        Expected::Cell => "input isn't a cell: "@,
    }
}

/// The text that describes an error to a reader.
pub open spec fn description(error: TableErrorView) -> Seq<char> {
    match error {
        TableErrorView::Parse { message } => message,
        TableErrorView::Shape { expected, dump } => shape_prefix(expected) + dump,
        TableErrorView::Io { message } => message,
    }
}

impl TableError {
    /// Describes the error to a reader: the parser's or the writer's own
    /// message, or what the tree lacks followed by a rendering of the tree.
    pub fn describe(&self) -> (text: String)
        ensures
            text@ == description(self.deep_view()),
    {
        match self {
            TableError::Parse { message } => message.clone(),
            TableError::Io { message } => message.clone(),
            TableError::Shape { expected, dump } => {
                let prefix = match expected {
                    Expected::Table => "input isn't a table: ",
                    Expected::Row => "input isn't a row: ",
                    Expected::Cell => "input isn't a cell: ",
                };
                String::from_str(prefix).concat(dump.as_str())
            },
        }
    }
}

} // verus!
