//! The part of a Markdown syntax tree that decides whether a document is a
//! table and where the texts of its cells stand: the top-level blocks, the
//! children of each table, the children of each row and the places of what
//! each cell holds.

use vstd::prelude::*;

verus! {

/// A stretch of the text of a document, by the offsets of its first byte and
/// of the byte behind its last.
#[derive(Debug, Clone, Copy, PartialEq, Eq)]
pub struct Span {
    pub start: usize,
    pub end: usize,
}

/// A child of a table row.
#[derive(Debug, PartialEq, Eq)]
pub enum RowChild {
    /// A table cell, with the place in the text of each node of its content,
    /// in document order, as far as the node has one.
    Cell(Vec<Option<Span>>),
    /// Any other node.
    Other,
}

/// A child of a table.
#[derive(Debug, PartialEq, Eq)]
pub enum TableChild {
    /// A table row, with its children in document order.
    Row(Vec<RowChild>),
    /// Any other node.
    Other,
}

/// A top-level block of a document.
#[derive(Debug, PartialEq, Eq)]
pub enum Block {
    /// A table, with its children in document order.
    Table(Vec<TableChild>),
    /// Any other block.
    Other,
}

/// A parsed document.
#[derive(Debug, PartialEq, Eq)]
pub struct Document {
    /// The top-level blocks, in document order.
    pub blocks: Vec<Block>,
    /// A rendering of the whole tree for diagnostics.
    pub dump: String,
}

/// The mathematical value of a [`RowChild`].
pub enum RowChildView {
    Cell(Seq<Option<Span>>),
    Other,
}

/// The mathematical value of a [`TableChild`].
pub enum TableChildView {
    Row(Seq<RowChildView>),
    Other,
}

/// The mathematical value of a [`Block`].
pub enum BlockView {
    Table(Seq<TableChildView>),
    Other,
}

/// The mathematical value of a [`Document`].
pub struct DocumentView {
    pub blocks: Seq<BlockView>,
    pub dump: Seq<char>,
}

impl DeepView for RowChild {
    type V = RowChildView;

    open spec fn deep_view(&self) -> RowChildView {
        match *self {
            RowChild::Cell(parts) => RowChildView::Cell(parts@),
            RowChild::Other => RowChildView::Other,
        }
    }
}

impl DeepView for TableChild {
    type V = TableChildView;

    open spec fn deep_view(&self) -> TableChildView {
        match *self {
            TableChild::Row(children) => TableChildView::Row(children.deep_view()),
            TableChild::Other => TableChildView::Other,
        }
    }
}

impl DeepView for Block {
    type V = BlockView;

    open spec fn deep_view(&self) -> BlockView {
        match *self {
            Block::Table(children) => BlockView::Table(children.deep_view()),
            Block::Other => BlockView::Other,
        }
    }
}

impl DeepView for Document {
    type V = DocumentView;

    open spec fn deep_view(&self) -> DocumentView {
        DocumentView { blocks: self.blocks.deep_view(), dump: self.dump@ }
    }
}

} // verus!
