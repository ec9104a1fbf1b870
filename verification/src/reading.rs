//! Reading tab-separated values, and the proof that what the writer gives
//! for a table is read back as that table.
//!
//! The reader exists in specifications only. It takes a field that opens
//! with a double quote up to the quote that closes it, with each pair of
//! quotes inside as one quote, and any other field up to the next tab, line
//! feed, carriage return or quote. A tab parts two fields and a line feed
//! ends a record; anything else in their place makes the text unreadable.

use vstd::prelude::*;
use vstd::utf8::{decode_utf8, encode_utf8, encode_utf8_decode_utf8, encode_utf8_valid_utf8, valid_utf8};

use crate::error::TableErrorView;
use crate::extract::{
    cell_text, cell_texts, is_row_of_cells, is_single_table, lemma_rows_of_cells_are_accepted,
    table_of,
};
use crate::tree::DocumentView;
use crate::tsv::{
    doubled, field_bytes, is_special, joined, needs_quotes, record_bytes, table_bytes, utf8_table,
    LF, QUOTE, TAB,
};

verus! {

/// The number of bytes at the start of `bytes` that have no meaning of their
/// own in the format.
pub open spec fn plain_len(bytes: Seq<u8>) -> nat
    decreases bytes.len(),
{
    if bytes.len() == 0 || is_special(bytes[0]) {
        0
    } else {
        1 + plain_len(bytes.drop_first())
    }
}

/// Reads a quoted field from behind its opening quote: the content, and the
/// number of bytes read, the closing quote among them. `None` where no quote
/// closes the field.
pub open spec fn read_quoted(bytes: Seq<u8>) -> Option<(Seq<u8>, int)>
    decreases bytes.len(),
{
    if bytes.len() == 0 {
        None
    } else if bytes[0] != QUOTE {
        match read_quoted(bytes.drop_first()) {
            Some((content, read)) => Some((seq![bytes[0]] + content, read + 1)),
            None => None,
        }
    } else if bytes.len() >= 2 && bytes[1] == QUOTE {
        match read_quoted(bytes.skip(2)) {
            Some((content, read)) => Some((seq![QUOTE] + content, read + 2)),
            None => None,
        }
    } else {
        Some((Seq::empty(), 1))
    }
}

/// Reads the field at the start of `bytes`: the field, and the number of
/// bytes read.
pub open spec fn read_field(bytes: Seq<u8>) -> Option<(Seq<u8>, int)> {
    if bytes.len() > 0 && bytes[0] == QUOTE {
        match read_quoted(bytes.drop_first()) {
            Some((content, read)) => Some((content, read + 1)),
            None => None,
        }
    } else {
        Some((bytes.take(plain_len(bytes) as int), plain_len(bytes) as int))
    }
}

/// Reads the record at the start of `bytes`: its fields, and the number of
/// bytes read, the line feed among them.
pub open spec fn read_record(bytes: Seq<u8>) -> Option<(Seq<Seq<u8>>, int)>
    decreases bytes.len(),
{
    match read_field(bytes) {
        Some((field, read)) => {
            if 0 <= read < bytes.len() && bytes[read] == LF {
                Some((seq![field], read + 1))
            } else if 0 <= read < bytes.len() && bytes[read] == TAB {
                match read_record(bytes.skip(read + 1)) {
                    Some((fields, more)) => Some((seq![field] + fields, read + 1 + more)),
                    None => None,
                }
            } else {
                None
            }
        },
        None => None,
    }
}

/// Reads all of `bytes` as records.
pub open spec fn read_table(bytes: Seq<u8>) -> Option<Seq<Seq<Seq<u8>>>>
    decreases bytes.len(),
{
    if bytes.len() == 0 {
        Some(Seq::empty())
    } else {
        match read_record(bytes) {
            Some((fields, read)) => {
                if 0 < read <= bytes.len() {
                    match read_table(bytes.skip(read)) {
                        Some(rows) => Some(seq![fields] + rows),
                        None => None,
                    }
                } else {
                    None
                }
            },
            None => None,
        }
    }
}

/// A field without a special byte is read up to the special byte behind it.
proof fn lemma_plain_len(field: Seq<u8>, rest: Seq<u8>)
    requires
        !needs_quotes(field),
        rest.len() == 0 || is_special(rest[0]),
    ensures
        plain_len(field + rest) == field.len(),
    decreases field.len(),
{
    if field.len() == 0 {
        assert(field + rest =~= rest);
    } else {
        let tail = field.drop_first();
        assert(!is_special(field[0]));
        assert(!needs_quotes(tail)) by {
            if needs_quotes(tail) {
                let i = choose|i: int| 0 <= i < tail.len() && is_special(#[trigger] tail[i]);
                assert(is_special(field[i + 1]));
            }
        }
        assert((field + rest).drop_first() =~= tail + rest);
        assert((field + rest)[0] == field[0]);
        lemma_plain_len(tail, rest);
    }
}

/// A field with its quotes doubled is read back up to its closing quote.
proof fn lemma_read_quoted(field: Seq<u8>, rest: Seq<u8>)
    requires
        rest.len() == 0 || rest[0] != QUOTE,
    ensures
        read_quoted(doubled(field) + seq![QUOTE] + rest) == Some(
            (field, doubled(field).len() as int + 1),
        ),
    decreases field.len(),
{
    let bytes = doubled(field) + seq![QUOTE] + rest;
    if field.len() == 0 {
        assert(bytes =~= seq![QUOTE] + rest);
        assert(field =~= Seq::empty());
    } else {
        let tail = field.drop_first();
        lemma_read_quoted(tail, rest);
        let after = doubled(tail) + seq![QUOTE] + rest;
        if field[0] == QUOTE {
            assert(bytes =~= seq![QUOTE, QUOTE] + after);
            assert(bytes.skip(2) =~= after);
            assert(seq![QUOTE] + tail =~= field);
        } else {
            assert(bytes =~= seq![field[0]] + after);
            assert(bytes.drop_first() =~= after);
            assert(seq![field[0]] + tail =~= field);
        }
    }
}

/// A written field is read back where a tab or a line feed follows it.
proof fn lemma_read_field(field: Seq<u8>, rest: Seq<u8>)
    requires
        rest.len() > 0,
        rest[0] == TAB || rest[0] == LF,
    ensures
        read_field(field_bytes(field) + rest) == Some((field, field_bytes(field).len() as int)),
{
    let bytes = field_bytes(field) + rest;
    if needs_quotes(field) {
        assert(bytes =~= seq![QUOTE] + (doubled(field) + seq![QUOTE] + rest));
        assert(bytes.drop_first() =~= doubled(field) + seq![QUOTE] + rest);
        lemma_read_quoted(field, rest);
    } else {
        lemma_plain_len(field, rest);
        if field.len() > 0 {
            assert(!is_special(field[0]));
            assert(bytes[0] == field[0]);
        } else {
            assert(bytes[0] == rest[0]);
        }
        assert(bytes.take(field.len() as int) =~= field);
    }
}

/// The fields of a record, written with a line feed behind them, are read
/// back.
proof fn lemma_read_joined(fields: Seq<Seq<u8>>, rest: Seq<u8>)
    requires
        fields.len() >= 1,
    ensures
        read_record(joined(fields) + seq![LF] + rest) == Some(
            (fields, joined(fields).len() as int + 1),
        ),
    decreases fields.len(),
{
    let bytes = joined(fields) + seq![LF] + rest;
    let first = field_bytes(fields[0]);
    if fields.len() == 1 {
        lemma_read_field(fields[0], seq![LF] + rest);
        assert(bytes =~= first + (seq![LF] + rest));
        assert(bytes[first.len() as int] == LF);
        assert(seq![fields[0]] =~= fields);
    } else {
        let tail = fields.drop_first();
        let after = joined(tail) + seq![LF] + rest;
        lemma_read_field(fields[0], seq![TAB] + after);
        assert(bytes =~= first + (seq![TAB] + after));
        assert(bytes[first.len() as int] == TAB);
        assert(bytes.skip(first.len() as int + 1) =~= after);
        lemma_read_joined(tail, rest);
        assert(seq![fields[0]] + tail =~= fields);
    }
}

/// A written record with a field is read back, whatever follows it.
proof fn lemma_read_record(fields: Seq<Seq<u8>>, rest: Seq<u8>)
    requires
        fields.len() >= 1,
    ensures
        read_record(record_bytes(fields) + rest) == Some(
            (fields, record_bytes(fields).len() as int),
        ),
{
    if joined(fields).len() == 0 {
        let bytes = seq![QUOTE, QUOTE, LF] + rest;
        assert(fields.len() == 1) by {
            if fields.len() > 1 {
                assert(joined(fields).len() >= (field_bytes(fields[0]) + seq![TAB]).len());
            }
        }
        assert(fields[0] =~= Seq::empty());
        assert(fields =~= seq![Seq::<u8>::empty()]);
        let inner = bytes.drop_first();
        assert(inner[0] == QUOTE && inner[1] == LF);
        assert(read_quoted(inner) == Some((Seq::<u8>::empty(), 1int)));
        assert(read_field(bytes) == Some((Seq::<u8>::empty(), 2int)));
        assert(bytes[2] == LF);
    } else {
        lemma_read_joined(fields, rest);
    }
}

/// The records that the writer gives for `rows` are read back as `rows`,
/// where each row has a field.
pub proof fn lemma_read_table(rows: Seq<Seq<Seq<u8>>>)
    requires
        forall|r: int| 0 <= r < rows.len() ==> (#[trigger] rows[r]).len() >= 1,
    ensures
        read_table(table_bytes(rows)) == Some(rows),
    decreases rows.len(),
{
    if rows.len() == 0 {
        assert(rows =~= Seq::empty());
    } else {
        let tail = rows.drop_first();
        let bytes = table_bytes(rows);
        let first = record_bytes(rows[0]);
        assert(forall|r: int| 0 <= r < tail.len() ==> (#[trigger] tail[r]).len() >= 1) by {
            assert(forall|r: int| 0 <= r < tail.len() ==> tail[r] == rows[r + 1]);
        }
        lemma_read_record(rows[0], table_bytes(tail));
        lemma_read_table(tail);
        assert(bytes.skip(first.len() as int) =~= table_bytes(tail));
        assert(seq![rows[0]] + tail =~= rows);
    }
}

/// Ragged rows are written as they are: what the writer gives for a table
/// whose rows each have a cell is read back as as many records as the table
/// has rows, each with as many fields as its row has cells, and each field is
/// the UTF-8 of its cell's text. No row is filled up or cut.
pub proof fn lemma_written_table_reads_back(table: Seq<Seq<Seq<char>>>)
    requires
        forall|r: int| 0 <= r < table.len() ==> (#[trigger] table[r]).len() >= 1,
    ensures
        read_table(table_bytes(utf8_table(table))) == Some(utf8_table(table)),
        utf8_table(table).len() == table.len(),
        forall|r: int|
            0 <= r < table.len() ==> (#[trigger] utf8_table(table)[r]).len() == table[r].len(),
        forall|r: int, c: int|
            0 <= r < table.len() && 0 <= c < table[r].len() ==> {
                &&& valid_utf8(#[trigger] utf8_table(table)[r][c])
                &&& decode_utf8(utf8_table(table)[r][c]) == table[r][c]
            },
{
    let rows = utf8_table(table);
    assert forall|r: int| 0 <= r < rows.len() implies (#[trigger] rows[r]).len() >= 1 by {
        assert(rows[r].len() == table[r].len());
    }
    lemma_read_table(rows);
    assert forall|r: int, c: int| 0 <= r < table.len() && 0 <= c < table[r].len() implies {
        &&& valid_utf8(#[trigger] utf8_table(table)[r][c])
        &&& decode_utf8(utf8_table(table)[r][c]) == table[r][c]
    } by {
        assert(rows[r][c] == encode_utf8(table[r][c]));
        encode_utf8_valid_utf8(table[r][c]);
        encode_utf8_decode_utf8(table[r][c]);
    }
}

/// A regular table comes out whole: where a document is one table of `rows`
/// rows, each of `columns` cells with `columns` at least one, each cell with
/// its content in place in `source`, the document is accepted, and what the
/// writer gives for it is read back as exactly `rows` records of exactly
/// `columns` fields, each field the UTF-8 of the source text of the cell in
/// its place.
pub proof fn lemma_regular_table_round_trip(
    document: DocumentView,
    source: Seq<char>,
    rows: nat,
    columns: nat,
)
    requires
        is_single_table(document),
        columns >= 1,
        document.blocks[0]->Table_0.len() == rows,
        forall|r: int|
            0 <= r < rows ==> {
                &&& is_row_of_cells(#[trigger] document.blocks[0]->Table_0[r], source)
                &&& document.blocks[0]->Table_0[r]->Row_0.len() == columns
            },
    ensures
        table_of(document, source) == Ok::<Seq<Seq<Seq<char>>>, TableErrorView>(
            cell_texts(document.blocks[0]->Table_0, source),
        ),
        read_table(table_bytes(utf8_table(cell_texts(document.blocks[0]->Table_0, source))))
            matches Some(records) && {
            &&& records.len() == rows
            &&& forall|r: int| 0 <= r < rows ==> (#[trigger] records[r]).len() == columns
            &&& forall|r: int, c: int|
                0 <= r < rows && 0 <= c < columns ==> #[trigger] records[r][c] == encode_utf8(
                    cell_text(document.blocks[0]->Table_0[r]->Row_0[c], source)->Ok_0,
                )
        },
{
    let children = document.blocks[0]->Table_0;
    let table = cell_texts(children, source);
    lemma_rows_of_cells_are_accepted(children, source);
    assert forall|r: int| 0 <= r < table.len() implies (#[trigger] table[r]).len() >= 1 by {
        assert(is_row_of_cells(children[r], source));
    }
    lemma_written_table_reads_back(table);
    let records = utf8_table(table);
    assert forall|r: int| 0 <= r < rows implies (#[trigger] records[r]).len() == columns by {
        assert(is_row_of_cells(children[r], source));
    }
    assert forall|r: int, c: int| 0 <= r < rows && 0 <= c < columns implies #[trigger] records[r][c]
        == encode_utf8(cell_text(children[r]->Row_0[c], source)->Ok_0) by {
        assert(is_row_of_cells(children[r], source));
    }
}

} // verus!
