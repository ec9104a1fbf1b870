//! Rows of cell texts as tab-separated values.
//!
//! The format is the one that the `csv` crate writes when its delimiter is a
//! tab: a field that holds a tab, a double quote, a carriage return or a line
//! feed is wrapped in double quotes, with every double quote inside it
//! doubled; fields are parted by a tab; a record ends with a line feed; and a
//! record that would be empty is written as a pair of double quotes.

use vstd::prelude::*;
use vstd::utf8::{
    encode_scalar, encode_utf8, has_width_1_encoding, has_width_2_encoding, has_width_3_encoding,
};

use crate::error::TableError;
use crate::writer::{csv_error_text, encode_record};

verus! {

/// The byte that parts two fields.
pub const TAB: u8 = 0x09;

/// The byte that ends a record.
pub const LF: u8 = 0x0a;

/// The carriage return.
pub const CR: u8 = 0x0d;

/// The byte that wraps a field.
pub const QUOTE: u8 = 0x22;

/// Whether a byte has a meaning of its own in the format.
pub open spec fn is_special(byte: u8) -> bool {
    byte == TAB || byte == QUOTE || byte == LF || byte == CR
}

/// Whether a field has to be wrapped in quotes.
pub open spec fn needs_quotes(field: Seq<u8>) -> bool {
    exists|i: int| 0 <= i < field.len() && is_special(#[trigger] field[i])
}

/// A field with each of its quotes doubled.
pub open spec fn doubled(field: Seq<u8>) -> Seq<u8>
    decreases field.len(),
{
    if field.len() == 0 {
        Seq::empty()
    } else if field[0] == QUOTE {
        seq![QUOTE, QUOTE] + doubled(field.drop_first())
    } else {
        seq![field[0]] + doubled(field.drop_first())
    }
}

/// A field as it is written.
pub open spec fn field_bytes(field: Seq<u8>) -> Seq<u8> {
    if needs_quotes(field) {
        seq![QUOTE] + doubled(field) + seq![QUOTE]
    } else {
        field
    }
}

/// The fields of a record as they are written, with a tab between each two.
pub open spec fn joined(fields: Seq<Seq<u8>>) -> Seq<u8>
    decreases fields.len(),
{
    if fields.len() == 0 {
        Seq::empty()
    } else if fields.len() == 1 {
        field_bytes(fields[0])
    } else {
        field_bytes(fields[0]) + seq![TAB] + joined(fields.drop_first())
    }
}

/// A record as it is written. Where the fields give no byte at all, which is
/// so of no field and of one empty field, a pair of quotes stands for them.
pub open spec fn record_bytes(fields: Seq<Seq<u8>>) -> Seq<u8> {
    if joined(fields).len() == 0 {
        seq![QUOTE, QUOTE, LF]
    } else {
        joined(fields) + seq![LF]
    }
}

/// The records of a table as they are written, one after the other.
pub open spec fn table_bytes(rows: Seq<Seq<Seq<u8>>>) -> Seq<u8>
    decreases rows.len(),
{
    if rows.len() == 0 {
        Seq::empty()
    } else {
        record_bytes(rows[0]) + table_bytes(rows.drop_first())
    }
}

/// The cells of a row as UTF-8.
pub open spec fn utf8_row(row: Seq<Seq<char>>) -> Seq<Seq<u8>> {
    row.map_values(|cell: Seq<char>| encode_utf8(cell))
}

/// The cells of a table as UTF-8.
pub open spec fn utf8_table(table: Seq<Seq<Seq<char>>>) -> Seq<Seq<Seq<u8>>> {
    table.map_values(|row: Seq<Seq<char>>| utf8_row(row))
}

/// Whether a character has a meaning of its own in the format: the tab, the
/// double quote, the line feed and the carriage return.
pub open spec fn is_special_char(c: char) -> bool {
    c == '\t' || c == '"' || c == '\n' || c == '\r'
}

/// Whether a text holds a character with a meaning of its own in the format.
pub open spec fn has_special_char(text: Seq<char>) -> bool {
    exists|k: int| 0 <= k < text.len() && is_special_char(#[trigger] text[k])
}

/// The bytes 0x80 and above, of which the encoding of every character beyond
/// ASCII is made, have no meaning in the format.
proof fn lemma_high_bytes(scalar: u32)
    ensures
        has_width_1_encoding(scalar) ==> (scalar & 0x7F) as u8 == scalar,
        (0xC0u8 | ((scalar >> 6) & 0x1F) as u8) >= 0x80,
        (0xE0u8 | ((scalar >> 12) & 0x0F) as u8) >= 0x80,
        (0xF0u8 | ((scalar >> 18) & 0x7) as u8) >= 0x80,
        (0x80u8 | (scalar & 0x3F) as u8) >= 0x80,
        (0x80u8 | ((scalar >> 6) & 0x3F) as u8) >= 0x80,
        (0x80u8 | ((scalar >> 12) & 0x3F) as u8) >= 0x80,
{
    assert(scalar <= 0x7F ==> (scalar & 0x7F) as u8 == scalar) by (bit_vector);
    assert((0xC0u8 | ((scalar >> 6) & 0x1F) as u8) >= 0x80) by (bit_vector);
    assert((0xE0u8 | ((scalar >> 12) & 0x0F) as u8) >= 0x80) by (bit_vector);
    assert((0xF0u8 | ((scalar >> 18) & 0x7) as u8) >= 0x80) by (bit_vector);
    assert((0x80u8 | (scalar & 0x3F) as u8) >= 0x80) by (bit_vector);
    assert((0x80u8 | ((scalar >> 6) & 0x3F) as u8) >= 0x80) by (bit_vector);
    assert((0x80u8 | ((scalar >> 12) & 0x3F) as u8) >= 0x80) by (bit_vector);
}

/// The UTF-8 of a character holds a special byte exactly when the character
/// is special.
proof fn lemma_char_needs_quotes(c: char)
    ensures
        needs_quotes(encode_scalar(c as u32)) <==> is_special_char(c),
{
    let scalar = c as u32;
    let bytes = encode_scalar(scalar);
    lemma_high_bytes(scalar);
    if has_width_1_encoding(scalar) {
        assert(bytes[0] == scalar);
        if is_special_char(c) {
            assert(is_special(bytes[0]));
        }
    } else if has_width_2_encoding(scalar) {
        assert(bytes.len() == 2);
    } else if has_width_3_encoding(scalar) {
        assert(bytes.len() == 3);
    } else {
        assert(bytes.len() == 4);
    }
}

/// A special byte of two runs of bytes lies in one of them.
proof fn lemma_needs_quotes_concat(first: Seq<u8>, second: Seq<u8>)
    ensures
        needs_quotes(first + second) <==> needs_quotes(first) || needs_quotes(second),
{
    let both = first + second;
    if needs_quotes(both) {
        let i = choose|i: int| 0 <= i < both.len() && is_special(#[trigger] both[i]);
        if i < first.len() {
            assert(is_special(first[i]));
        } else {
            assert(is_special(second[i - first.len()]));
        }
    }
    if needs_quotes(first) {
        let i = choose|i: int| 0 <= i < first.len() && is_special(#[trigger] first[i]);
        assert(is_special(both[i]));
    }
    if needs_quotes(second) {
        let i = choose|i: int| 0 <= i < second.len() && is_special(#[trigger] second[i]);
        assert(is_special(both[i + first.len()]));
    }
}

/// A cell is written in quotes exactly when its text holds a tab, a double
/// quote, a line feed or a carriage return. No character beyond ASCII asks
/// for quotes.
pub proof fn lemma_quoted_iff_special_char(cell: Seq<char>)
    ensures
        needs_quotes(encode_utf8(cell)) <==> has_special_char(cell),
    decreases cell.len(),
{
    if cell.len() > 0 {
        let tail = cell.drop_first();
        lemma_quoted_iff_special_char(tail);
        lemma_char_needs_quotes(cell[0]);
        lemma_needs_quotes_concat(encode_scalar(cell[0] as u32), encode_utf8(tail));
        if has_special_char(tail) {
            let k = choose|k: int| 0 <= k < tail.len() && is_special_char(#[trigger] tail[k]);
            assert(is_special_char(cell[k + 1]));
        }
        if has_special_char(cell) {
            let k = choose|k: int| 0 <= k < cell.len() && is_special_char(#[trigger] cell[k]);
            if k > 0 {
                assert(is_special_char(tail[k - 1]));
            }
        }
    }
}

/// Escaping: a cell whose text holds a tab or a double quote is written
/// between two quotes, with each quote of the text doubled.
pub proof fn lemma_tab_or_quote_is_quoted(cell: Seq<char>)
    requires
        cell.contains('\t') || cell.contains('"'),
    ensures
        field_bytes(encode_utf8(cell)) == seq![QUOTE] + doubled(encode_utf8(cell)) + seq![QUOTE],
{
    let k = choose|k: int| 0 <= k < cell.len() && (cell[k] == '\t' || cell[k] == '"');
    assert(is_special_char(cell[k]));
    lemma_quoted_iff_special_char(cell);
}

/// Doubling changes nothing in a field without a quote.
pub proof fn lemma_doubled_without_quote(field: Seq<u8>)
    requires
        !field.contains(QUOTE),
    ensures
        doubled(field) == field,
    decreases field.len(),
{
    if field.len() == 0 {
        assert(doubled(field) =~= field);
    } else {
        let tail = field.drop_first();
        assert(field[0] != QUOTE);
        assert(!tail.contains(QUOTE)) by {
            if tail.contains(QUOTE) {
                let i = choose|i: int| 0 <= i < tail.len() && tail[i] == QUOTE;
                assert(field[i + 1] == QUOTE);
            }
        }
        lemma_doubled_without_quote(tail);
        assert(doubled(field) =~= field);
    }
}

/// Writing two tables one after the other is writing their rows in one table.
pub proof fn lemma_table_bytes_concat(first: Seq<Seq<Seq<u8>>>, second: Seq<Seq<Seq<u8>>>)
    ensures
        table_bytes(first + second) == table_bytes(first) + table_bytes(second),
    decreases first.len(),
{
    if first.len() == 0 {
        assert(first + second =~= second);
    } else {
        lemma_table_bytes_concat(first.drop_first(), second);
        assert((first + second).drop_first() =~= first.drop_first() + second);
        assert(table_bytes(first + second) =~= table_bytes(first) + table_bytes(second));
    }
}

/// Writes the rows of a table as tab-separated records, in their order, each
/// with the fields it has: rows of different lengths stay as they are.
///
/// The first row is a record like every other. The writer's error would be
/// handed on with the writer's message; none comes of a writer in memory, so
/// the outcome is always the bytes.
pub fn write_table_as_csv(table: &Vec<Vec<String>>) -> (outcome: Result<Vec<u8>, TableError>)
    ensures
        outcome matches Ok(bytes) && bytes@ == table_bytes(utf8_table(table.deep_view())),
{
    let ghost rows = utf8_table(table.deep_view());
    let mut output: Vec<u8> = Vec::new();
    let mut i: usize = 0;
    while i < table.len()
        invariant
            i <= table.len(),
            rows == utf8_table(table.deep_view()),
            output@ == table_bytes(rows.take(i as int)),
        decreases table.len() - i,
    {
        proof {
            let single = seq![rows[i as int]];
            lemma_table_bytes_concat(rows.take(i as int), single);
            assert(rows.take(i as int) + single =~= rows.take(i + 1));
            assert(table_bytes(single.drop_first()) =~= Seq::empty());
            assert(table_bytes(single) =~= record_bytes(rows[i as int]));
        }
        match encode_record(&table[i]) {
            Ok(mut bytes) => {
                output.append(&mut bytes);
            },
            Err(error) => {
                return Err(TableError::Io { message: csv_error_text(&error) });
            },
        }
        i += 1;
    }
    proof {
        assert(rows.take(table.len() as int) =~= rows);
    }
    Ok(output)
}

} // verus!
