//! From a syntax tree and the text it was built from to rows of cell texts.
//!
//! The text of a cell is the source text of its content: what stands in the
//! document from the start of the first node in the cell to the end of the
//! last, markers of inline formatting and all.

use vstd::prelude::*;
use vstd::utf8::{
    decode_utf8, decode_utf8_encode_utf8, encode_utf8, encode_utf8_decode_utf8,
    encode_utf8_valid_utf8, is_ascii_chars, is_ascii_chars_encode_utf8, is_char_boundary,
    is_char_boundary_iff_not_is_continuation_byte, is_char_boundary_start_end_of_seq, valid_utf8,
    valid_utf8_split,
};

use crate::error::{Expected, TableError, TableErrorView};
use crate::gfm::{gfm_document, message_text, parse_gfm};
use crate::tree::{
    Block, Document, DocumentView, RowChild, RowChildView, Span, TableChild, TableChildView,
};

verus! {

/// A table as a value: its rows in order, each the texts of its cells in order.
pub type TableView = Seq<Seq<Seq<char>>>;

/// Whether `i` is the place of the first error among `results`.
pub open spec fn is_first_err<T, E>(results: Seq<Result<T, E>>, i: int) -> bool {
    &&& 0 <= i < results.len()
    &&& results[i] is Err
    &&& forall|j: int| 0 <= j < i ==> results[j] is Ok
}

/// All the values of `results` in order where every one is `Ok`, and the
/// first error where one is not.
pub open spec fn all_or_first_err<T, E>(results: Seq<Result<T, E>>) -> Result<Seq<T>, E> {
    if exists|i: int| is_first_err(results, i) {
        Err(results[choose|i: int| is_first_err(results, i)]->Err_0)
    } else {
        Ok(Seq::new(results.len(), |i: int| results[i]->Ok_0))
    }
}

/// Whether the bytes from `start` up to `end` are a stretch of text: they lie
/// within `bytes` and no character is cut at either end.
pub open spec fn is_stretch(bytes: Seq<u8>, start: int, end: int) -> bool {
    &&& 0 <= start <= end <= bytes.len()
    &&& is_char_boundary(bytes, start)
    &&& is_char_boundary(bytes, end)
}

/// The text that stands in `source` from byte `start` up to byte `end` of
/// its UTF-8, or `None` where that is no stretch of text.
pub open spec fn text_at(source: Seq<char>, start: int, end: int) -> Option<Seq<char>> {
    if is_stretch(encode_utf8(source), start, end) {
        Some(decode_utf8(encode_utf8(source).subrange(start, end)))
    } else {
        None
    }
}

/// The source text of a cell's content: what stands in `source` from the
/// start of the cell's first node to the end of its last, and nothing for a
/// cell without a node. `None` where one of the two nodes has no place or
/// the places give no stretch of text.
pub open spec fn cell_content(parts: Seq<Option<Span>>, source: Seq<char>) -> Option<Seq<char>> {
    if parts.len() == 0 {
        Some(Seq::empty())
    } else {
        match (parts.first(), parts.last()) {
            (Some(first), Some(last)) => text_at(source, first.start as int, last.end as int),
            _ => None,
        }
    }
}

/// What a child of a row stands for: the source text of a cell, or the
/// complaint that a cell was expected. A cell whose content has no place in
/// the text is no cell either.
pub open spec fn cell_text(child: RowChildView, source: Seq<char>) -> Result<Seq<char>, Expected> {
    match child {
        RowChildView::Cell(parts) => match cell_content(parts, source) {
            Some(text) => Ok(text),
            None => Err(Expected::Cell),
        },
        RowChildView::Other => Err(Expected::Cell),
    }
}

/// The texts of a row's cells, or the complaint that one of its children is
/// no cell.
pub open spec fn row_cells(children: Seq<RowChildView>, source: Seq<char>) -> Result<
    Seq<Seq<char>>,
    Expected,
> {
    all_or_first_err(children.map_values(|child: RowChildView| cell_text(child, source)))
}

/// What a child of a table stands for: the cells of a row, or the complaint
/// that a row was expected.
pub open spec fn row_of(child: TableChildView, source: Seq<char>) -> Result<
    Seq<Seq<char>>,
    Expected,
> {
    match child {
        TableChildView::Row(children) => row_cells(children, source),
        TableChildView::Other => Err(Expected::Row),
    }
}

/// The rows of a table, or what was expected at the first node in it, in
/// document order, that is out of place.
pub open spec fn table_rows(children: Seq<TableChildView>, source: Seq<char>) -> Result<
    TableView,
    Expected,
> {
    all_or_first_err(children.map_values(|child: TableChildView| row_of(child, source)))
}

/// Whether a document consists of one block and that block is a table.
pub open spec fn is_single_table(document: DocumentView) -> bool {
    document.blocks.len() == 1 && document.blocks[0] is Table
}

/// The refusal of a document in which `expected` is missing: it carries a
/// rendering of the whole tree.
pub open spec fn refusal(document: DocumentView, expected: Expected) -> TableErrorView {
    TableErrorView::Shape { expected, dump: document.dump }
}

/// The refusal of a document that is not one table.
pub open spec fn not_a_table(document: DocumentView) -> Result<TableView, TableErrorView> {
    Err(refusal(document, Expected::Table))
}

/// The table that a document holds, `source` being the text of the document.
/// A document that is not one table is refused, and so is a table with a
/// node out of place, at the first such node in document order.
pub open spec fn table_of(document: DocumentView, source: Seq<char>) -> Result<
    TableView,
    TableErrorView,
> {
    if is_single_table(document) {
        match table_rows(document.blocks[0]->Table_0, source) {
            Ok(rows) => Ok(rows),
            Err(expected) => Err(refusal(document, expected)),
        }
    } else {
        not_a_table(document)
    }
}

/// Whether an outcome in memory stands for the outcome `expected`.
pub open spec fn agrees_with<T: DeepView>(
    outcome: Result<T, TableError>,
    expected: Result<T::V, TableErrorView>,
) -> bool {
    match outcome {
        Ok(value) => expected == Ok::<T::V, TableErrorView>(value.deep_view()),
        Err(error) => expected == Err::<T::V, TableErrorView>(error.deep_view()),
    }
}

/// Whether the outcome of a search through a table stands for the outcome
/// `expected`.
pub open spec fn finds<T: DeepView>(
    outcome: Result<T, Expected>,
    expected: Result<T::V, Expected>,
) -> bool {
    match outcome {
        Ok(value) => expected == Ok::<T::V, Expected>(value.deep_view()),
        Err(missing) => expected == Err::<T::V, Expected>(missing),
    }
}

/// The first error decides: no error before it can be chosen in its place.
proof fn lemma_first_err<T, E>(results: Seq<Result<T, E>>, i: int)
    requires
        is_first_err(results, i),
    ensures
        all_or_first_err(results) == Err::<Seq<T>, E>(results[i]->Err_0),
{
    let chosen = choose|k: int| is_first_err(results, k);
    assert(is_first_err(results, chosen));
    assert(chosen == i) by {
        if chosen < i {
            assert(results[chosen] is Ok);
        } else if i < chosen {
            assert(results[i] is Ok);
        }
    }
}

/// Without an error all the values are collected.
proof fn lemma_no_err<T, E>(results: Seq<Result<T, E>>, values: Seq<T>)
    requires
        values.len() == results.len(),
        forall|i: int| 0 <= i < results.len() ==> results[i] == Ok::<T, E>(values[i]),
    ensures
        all_or_first_err(results) == Ok::<Seq<T>, E>(values),
{
    assert(!exists|i: int| is_first_err(results, i));
    assert(Seq::new(results.len(), |i: int| results[i]->Ok_0) =~= values);
}

/// Where one of the results is an error, one of them is the first.
proof fn lemma_err_has_first<T, E>(results: Seq<Result<T, E>>, i: int)
    requires
        !exists|k: int| is_first_err(results, k),
        0 <= i < results.len(),
    ensures
        results[i] is Ok,
    decreases i,
{
    if results[i] is Err {
        assert forall|j: int| 0 <= j < i implies results[j] is Ok by {
            lemma_err_has_first(results, j);
        }
        assert(is_first_err(results, i));
    }
}

/// Whether a child of a table is a row and each of its children a cell whose
/// content has its place in `source`.
pub open spec fn is_row_of_cells(child: TableChildView, source: Seq<char>) -> bool {
    &&& child is Row
    &&& forall|c: int|
        0 <= c < child->Row_0.len() ==> cell_text(
            #[trigger] child->Row_0[c],
            source,
        ) is Ok
}

/// The source texts of the cells of a table all of whose children are rows
/// of cells.
pub open spec fn cell_texts(children: Seq<TableChildView>, source: Seq<char>) -> TableView {
    Seq::new(
        children.len(),
        |r: int|
            Seq::new(
                children[r]->Row_0.len(),
                |c: int| cell_text(children[r]->Row_0[c], source)->Ok_0,
            ),
    )
}

/// A row is accepted if and only if each of its children is a cell whose
/// content has its place in the text, and then with the source texts of all
/// of them in their order.
pub proof fn lemma_row_accepted_iff_all_cells(children: Seq<RowChildView>, source: Seq<char>)
    ensures
        row_cells(children, source) is Ok <==> forall|c: int|
            0 <= c < children.len() ==> cell_text(#[trigger] children[c], source) is Ok,
        row_cells(children, source) matches Ok(cells) ==> {
            &&& cells.len() == children.len()
            &&& forall|c: int|
                0 <= c < children.len() ==> #[trigger] cells[c] == cell_text(
                    children[c],
                    source,
                )->Ok_0
        },
{
    let results = children.map_values(|child: RowChildView| cell_text(child, source));
    if exists|i: int| is_first_err(results, i) {
        let i = choose|i: int| is_first_err(results, i);
        assert(results[i] is Err);
        assert(cell_text(children[i], source) is Err);
    } else {
        assert forall|c: int| 0 <= c < children.len() implies cell_text(
            #[trigger] children[c],
            source,
        ) is Ok by {
            lemma_err_has_first(results, c);
            assert(results[c] is Ok);
        }
    }
}

/// A table is accepted if and only if each of its children is a row of
/// cells, whatever the lengths of the rows, and then with the source texts
/// of all cells in their places: as many rows as the table has, each as long
/// as it is in the document.
pub proof fn lemma_table_accepted_iff_rows_of_cells(
    children: Seq<TableChildView>,
    source: Seq<char>,
)
    ensures
        table_rows(children, source) is Ok <==> forall|r: int|
            0 <= r < children.len() ==> is_row_of_cells(#[trigger] children[r], source),
        table_rows(children, source) is Ok ==> table_rows(children, source) == Ok::<
            TableView,
            Expected,
        >(cell_texts(children, source)),
{
    let results = children.map_values(|child: TableChildView| row_of(child, source));
    assert forall|r: int| 0 <= r < children.len() implies (results[r] is Ok <==> is_row_of_cells(
        #[trigger] children[r],
        source,
    )) && (results[r] matches Ok(cells) ==> cells =~= cell_texts(children, source)[r]) by {
        if children[r] is Row {
            lemma_row_accepted_iff_all_cells(children[r]->Row_0, source);
        }
    }
    if exists|i: int| is_first_err(results, i) {
        let i = choose|i: int| is_first_err(results, i);
        assert(!is_row_of_cells(children[i], source));
    } else {
        assert forall|r: int| 0 <= r < children.len() implies is_row_of_cells(
            #[trigger] children[r],
            source,
        ) by {
            lemma_err_has_first(results, r);
        }
        assert(Seq::new(results.len(), |i: int| results[i]->Ok_0) =~= cell_texts(
            children,
            source,
        ));
    }
}

/// A table of rows of cells is accepted with the source texts of its cells.
pub proof fn lemma_rows_of_cells_are_accepted(children: Seq<TableChildView>, source: Seq<char>)
    requires
        forall|r: int| 0 <= r < children.len() ==> is_row_of_cells(#[trigger] children[r], source),
    ensures
        table_rows(children, source) == Ok::<TableView, Expected>(cell_texts(children, source)),
{
    lemma_table_accepted_iff_rows_of_cells(children, source);
}

/// A document without a block, as empty text gives it, is refused as no
/// table.
pub proof fn lemma_empty_document_is_refused(document: DocumentView, source: Seq<char>)
    requires
        document.blocks.len() == 0,
    ensures
        table_of(document, source) == not_a_table(document),
{
}

/// A document none of whose blocks is a table is refused as no table.
pub proof fn lemma_document_without_table_is_refused(document: DocumentView, source: Seq<char>)
    requires
        forall|b: int| 0 <= b < document.blocks.len() ==> (#[trigger] document.blocks[b]) is Other,
    ensures
        table_of(document, source) == not_a_table(document),
{
    if document.blocks.len() == 1 {
        assert(document.blocks[0] is Other);
    }
}

/// A document of more than one block is refused as no table, whatever the
/// blocks are: a table beside a paragraph, and two tables.
pub proof fn lemma_several_blocks_are_refused(document: DocumentView, source: Seq<char>)
    requires
        document.blocks.len() >= 2,
    ensures
        table_of(document, source) == not_a_table(document),
{
}

/// Within text of valid UTF-8, a stretch that starts on a character boundary
/// ends on one exactly when its end is a boundary of what follows its start.
proof fn lemma_boundary_in_tail(bytes: Seq<u8>, start: int, end: int)
    requires
        valid_utf8(bytes),
        is_stretch(bytes, start, end),
    ensures
        valid_utf8(bytes.subrange(start, bytes.len() as int)),
        is_char_boundary(bytes.subrange(start, bytes.len() as int), end - start),
{
    let tail = bytes.subrange(start, bytes.len() as int);
    valid_utf8_split(bytes, start);
    if end == bytes.len() {
        is_char_boundary_start_end_of_seq(tail);
    } else {
        is_char_boundary_iff_not_is_continuation_byte(bytes, end);
        is_char_boundary_iff_not_is_continuation_byte(tail, end - start);
        assert(tail[end - start] == bytes[end]);
    }
}

/// The text of a stretch is the stretch itself: encoded again it gives the
/// very bytes that stand in the source, nothing added, dropped or changed.
pub proof fn lemma_text_at_is_verbatim(source: Seq<char>, start: int, end: int)
    requires
        text_at(source, start, end) is Some,
    ensures
        encode_utf8(text_at(source, start, end)->Some_0) == encode_utf8(source).subrange(
            start,
            end,
        ),
{
    let bytes = encode_utf8(source);
    let tail = bytes.subrange(start, bytes.len() as int);
    encode_utf8_valid_utf8(source);
    lemma_boundary_in_tail(bytes, start, end);
    valid_utf8_split(tail, end - start);
    assert(tail.subrange(0, end - start) =~= bytes.subrange(start, end));
    decode_utf8_encode_utf8(bytes.subrange(start, end));
}

/// In text of ASCII alone every offset is a character boundary.
proof fn lemma_ascii_boundary(source: Seq<char>, index: int)
    requires
        is_ascii_chars(source),
        0 <= index <= source.len(),
    ensures
        encode_utf8(source).len() == source.len(),
        is_char_boundary(encode_utf8(source), index),
{
    let bytes = encode_utf8(source);
    encode_utf8_valid_utf8(source);
    is_ascii_chars_encode_utf8(source);
    if index == bytes.len() {
        is_char_boundary_start_end_of_seq(bytes);
    } else {
        is_char_boundary_iff_not_is_continuation_byte(bytes, index);
        assert(bytes[index] == source[index] as u8);
    }
}

/// In text of ASCII alone offsets count characters: the text of a stretch
/// is the characters from `start` up to `end`.
pub proof fn lemma_text_at_ascii(source: Seq<char>, start: int, end: int)
    requires
        is_ascii_chars(source),
        0 <= start <= end <= source.len(),
    ensures
        text_at(source, start, end) == Some(source.subrange(start, end)),
{
    let bytes = encode_utf8(source);
    let piece = source.subrange(start, end);
    lemma_ascii_boundary(source, start);
    lemma_ascii_boundary(source, end);
    is_ascii_chars_encode_utf8(source);
    assert(is_ascii_chars(piece));
    is_ascii_chars_encode_utf8(piece);
    assert(encode_utf8(piece) =~= bytes.subrange(start, end));
    encode_utf8_decode_utf8(piece);
}

/// Cuts the text from byte `start` up to byte `end` out of `input`, where
/// that is a stretch of text.
pub fn cut(input: &str, start: usize, end: usize) -> (piece: Option<String>)
    ensures
        match piece {
            Some(text) => text_at(input@, start as int, end as int) == Some(text@),
            None => text_at(input@, start as int, end as int) is None,
        },
{
    let ghost bytes = encode_utf8(input@);
    proof {
        encode_utf8_valid_utf8(input@);
    }
    if start <= end && input.is_char_boundary(start) && input.is_char_boundary(end) {
        proof {
            assert(end <= bytes.len());
            lemma_boundary_in_tail(bytes, start as int, end as int);
        }
        let tail = input.split_at(start).1;
        let piece = tail.split_at(end - start).0;
        let text = piece.to_owned();
        proof {
            assert(encode_utf8(piece@) =~= bytes.subrange(start as int, end as int));
            encode_utf8_decode_utf8(text@);
        }
        Some(text)
    } else {
        None
    }
}

/// Cuts the source text of a cell's content out of `input`: from the start of
/// the cell's first node to the end of its last, and nothing for a cell
/// without a node.
pub fn cut_cell(parts: &Vec<Option<Span>>, input: &str) -> (content: Option<String>)
    ensures
        match content {
            Some(text) => cell_content(parts@, input@) == Some(text@),
            None => cell_content(parts@, input@) is None,
        },
{
    if parts.len() == 0 {
        return Some(String::new());
    }
    match (&parts[0], &parts[parts.len() - 1]) {
        (Some(first), Some(last)) => cut(input, first.start, last.end),
        _ => None,
    }
}

/// Collects the source texts of a row's cells, and stops at its first child
/// that is no cell.
pub fn extract_row(children: &Vec<RowChild>, input: &str) -> (outcome: Result<
    Vec<String>,
    Expected,
>)
    ensures
        finds(outcome, row_cells(children.deep_view(), input@)),
{
    let ghost results = children.deep_view().map_values(
        |child: RowChildView| cell_text(child, input@),
    );
    let mut cells: Vec<String> = Vec::new();
    let mut i: usize = 0;
    while i < children.len()
        invariant
            i <= children.len(),
            cells.len() == i,
            results == children.deep_view().map_values(
                |child: RowChildView| cell_text(child, input@),
            ),
            forall|j: int| 0 <= j < i ==> results[j] == Ok::<Seq<char>, Expected>(cells[j]@),
        decreases children.len() - i,
    {
        let content = match &children[i] {
            RowChild::Cell(parts) => cut_cell(parts, input),
            RowChild::Other => None,
        };
        match content {
            Some(text) => {
                cells.push(text);
            },
            None => {
                proof {
                    lemma_first_err(results, i as int);
                }
                return Err(Expected::Cell);
            },
        }
        i += 1;
    }
    proof {
        lemma_no_err(results, cells.deep_view());
    }
    Ok(cells)
}

/// Collects the rows of a table, and stops at the first node, in document
/// order, that is out of place.
pub fn extract_rows(children: &Vec<TableChild>, input: &str) -> (outcome: Result<
    Vec<Vec<String>>,
    Expected,
>)
    ensures
        finds(outcome, table_rows(children.deep_view(), input@)),
{
    let ghost results = children.deep_view().map_values(
        |child: TableChildView| row_of(child, input@),
    );
    let mut rows: Vec<Vec<String>> = Vec::new();
    let mut i: usize = 0;
    while i < children.len()
        invariant
            i <= children.len(),
            rows.len() == i,
            results == children.deep_view().map_values(
                |child: TableChildView| row_of(child, input@),
            ),
            forall|j: int|
                0 <= j < i ==> results[j] == Ok::<Seq<Seq<char>>, Expected>(rows[j].deep_view()),
        decreases children.len() - i,
    {
        let found = match &children[i] {
            TableChild::Row(cells) => extract_row(cells, input),
            TableChild::Other => Err(Expected::Row),
        };
        match found {
            Ok(row) => {
                rows.push(row);
            },
            Err(missing) => {
                proof {
                    lemma_first_err(results, i as int);
                }
                return Err(missing);
            },
        }
        i += 1;
    }
    proof {
        lemma_no_err(results, rows.deep_view());
    }
    Ok(rows)
}

/// Reduces a parsed document to the rows of its table, `input` being the
/// text that the document was parsed from.
///
/// The document must consist of exactly one block, a table; every child of
/// the table must be a row and every child of a row a cell. Rows may differ
/// in length: they are handed on as they are. Nothing is returned of a
/// document that fails anywhere: the error says what was expected and
/// renders the tree.
pub fn extract_table(document: &Document, input: &str) -> (outcome: Result<
    Vec<Vec<String>>,
    TableError,
>)
    ensures
        agrees_with(outcome, table_of(document.deep_view(), input@)),
{
    let found = if document.blocks.len() == 1 {
        match &document.blocks[0] {
            Block::Table(children) => extract_rows(children, input),
            Block::Other => Err(Expected::Table),
        }
    } else {
        Err(Expected::Table)
    };
    match found {
        Ok(rows) => Ok(rows),
        Err(expected) => Err(TableError::Shape { expected, dump: document.dump.clone() }),
    }
}

/// The rows that `input` holds: those of the table in the parser's tree.
pub open spec fn parsed_table(input: Seq<char>) -> Result<TableView, TableErrorView> {
    table_of(gfm_document(input), input)
}

/// Parses `input` as GitHub-flavoured Markdown and reduces the tree to the
/// rows of its table, each cell with the source text of its content.
///
/// The parser's error would be handed on with the parser's message; none
/// comes of a parser without MDX, so the outcome is that of
/// [`extract_table`] on the parser's tree.
pub fn parse_markdown_table(input: &str) -> (outcome: Result<Vec<Vec<String>>, TableError>)
    ensures
        agrees_with(outcome, parsed_table(input@)),
{
    match parse_gfm(input) {
        Ok(document) => extract_table(&document, input),
        Err(message) => Err(TableError::Parse { message: message_text(&message) }),
    }
}

} // verus!
