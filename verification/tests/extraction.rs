use md2tsv::error::{Expected, TableError};
use md2tsv::extract::{cut, cut_cell, extract_row, extract_rows, extract_table, parse_markdown_table};
use md2tsv::tree::{Block, Document, RowChild, Span, TableChild};

const TEXT: &str = "ab cd é *x* 12";

fn place(start: usize, end: usize) -> Option<Span> {
    Some(Span { start, end })
}

fn cell(start: usize, end: usize) -> RowChild {
    RowChild::Cell(vec![place(start, end)])
}

fn row(cells: &[(usize, usize)]) -> TableChild {
    TableChild::Row(cells.iter().map(|&(start, end)| cell(start, end)).collect())
}

fn document(blocks: Vec<Block>) -> Document {
    Document { blocks, dump: "tree".to_string() }
}

fn strings(rows: &[&[&str]]) -> Vec<Vec<String>> {
    rows.iter().map(|row| row.iter().map(|text| text.to_string()).collect()).collect()
}

fn shape(expected: Expected, dump: &str) -> TableError {
    TableError::Shape { expected, dump: dump.to_string() }
}

#[test]
fn cut_gives_the_text_between_two_offsets() {
    assert_eq!(cut(TEXT, 0, 2), Some("ab".to_string()));
    assert_eq!(cut(TEXT, 3, 5), Some("cd".to_string()));
    assert_eq!(cut(TEXT, 9, 12), Some("*x*".to_string()));
    assert_eq!(cut(TEXT, 0, TEXT.len()), Some(TEXT.to_string()));
}

#[test]
fn cut_of_nothing_is_the_empty_text() {
    assert_eq!(cut(TEXT, 0, 0), Some(String::new()));
    assert_eq!(cut(TEXT, 4, 4), Some(String::new()));
    assert_eq!(cut(TEXT, TEXT.len(), TEXT.len()), Some(String::new()));
    assert_eq!(cut("", 0, 0), Some(String::new()));
}

#[test]
fn cut_counts_bytes_and_keeps_characters_whole() {
    assert_eq!(cut(TEXT, 6, 8), Some("é".to_string()));
    assert_eq!(cut(TEXT, 6, 7), None);
    assert_eq!(cut(TEXT, 7, 8), None);
    assert_eq!(cut("日本", 0, 3), Some("日".to_string()));
    assert_eq!(cut("日本", 1, 3), None);
}

#[test]
fn cut_refuses_offsets_beyond_the_text_or_out_of_order() {
    assert_eq!(cut(TEXT, 3, TEXT.len() + 1), None);
    assert_eq!(cut(TEXT, TEXT.len() + 1, TEXT.len() + 2), None);
    assert_eq!(cut(TEXT, 5, 3), None);
    assert_eq!(cut("", 0, 1), None);
    assert_eq!(cut(TEXT, 0, usize::MAX), None);
}

#[test]
fn cell_without_a_node_is_empty() {
    assert_eq!(cut_cell(&Vec::new(), TEXT), Some(String::new()));
}

#[test]
fn cell_reaches_from_its_first_node_to_its_last() {
    assert_eq!(cut_cell(&vec![place(3, 5)], TEXT), Some("cd".to_string()));
    assert_eq!(cut_cell(&vec![place(0, 2), place(3, 5)], TEXT), Some("ab cd".to_string()));
    assert_eq!(cut_cell(&vec![place(3, 5), None, place(9, 12)], TEXT), Some("cd é *x*".to_string()));
}

#[test]
fn cell_whose_ends_have_no_place_is_refused() {
    assert_eq!(cut_cell(&vec![None], TEXT), None);
    assert_eq!(cut_cell(&vec![None, place(3, 5)], TEXT), None);
    assert_eq!(cut_cell(&vec![place(0, 2), None], TEXT), None);
    assert_eq!(cut_cell(&vec![place(3, 5), place(0, 2)], TEXT), None);
}

#[test]
fn row_of_cells_gives_their_texts() {
    let children = vec![cell(0, 2), RowChild::Cell(Vec::new()), cell(9, 12)];
    assert_eq!(extract_row(&children, TEXT), Ok(vec!["ab".to_string(), String::new(), "*x*".to_string()]));
}

#[test]
fn row_without_children_is_an_empty_row() {
    assert_eq!(extract_row(&Vec::new(), TEXT), Ok(Vec::new()));
}

#[test]
fn row_is_refused_at_its_first_stray_child() {
    let children = vec![
        cell(0, 2),
        RowChild::Other,
        cell(3, 5),
        RowChild::Other,
    ];
    assert_eq!(extract_row(&children, TEXT), Err(Expected::Cell));
}

#[test]
fn row_is_refused_at_a_cell_out_of_place() {
    let children = vec![cell(0, 2), cell(6, 7), RowChild::Other];
    assert_eq!(extract_row(&children, TEXT), Err(Expected::Cell));
    let children = vec![cell(0, 2), cell(3, 500)];
    assert_eq!(extract_row(&children, TEXT), Err(Expected::Cell));
}

#[test]
fn table_keeps_rows_and_cells_in_order() {
    let children = vec![row(&[(0, 1), (1, 2)]), row(&[(3, 4), (4, 5)]), row(&[(13, 14), (14, 15)])];
    assert_eq!(extract_rows(&children, TEXT), Ok(strings(&[&["a", "b"], &["c", "d"], &["1", "2"]])));
}

#[test]
fn table_is_refused_at_a_child_that_is_no_row() {
    let children = vec![row(&[(0, 1)]), TableChild::Other, row(&[(1, 2)])];
    assert_eq!(extract_rows(&children, TEXT), Err(Expected::Row));
}

#[test]
fn first_violation_in_document_order_wins() {
    let bad_row = TableChild::Row(vec![cell(0, 1), RowChild::Other]);
    let early_cell = vec![row(&[(3, 4)]), bad_row, TableChild::Other];
    assert_eq!(extract_rows(&early_cell, TEXT), Err(Expected::Cell));

    let bad_row = TableChild::Row(vec![RowChild::Other]);
    let early_row = vec![TableChild::Other, bad_row];
    assert_eq!(extract_rows(&early_row, TEXT), Err(Expected::Row));
}

#[test]
fn table_with_a_node_out_of_place_is_refused_with_the_tree() {
    let doc = document(vec![Block::Table(vec![row(&[(0, 1)]), TableChild::Other])]);
    assert_eq!(extract_table(&doc, TEXT), Err(shape(Expected::Row, "tree")));
    let doc = document(vec![Block::Table(vec![TableChild::Row(vec![cell(0, 1), RowChild::Other])])]);
    assert_eq!(extract_table(&doc, TEXT), Err(shape(Expected::Cell, "tree")));
    let doc = document(vec![Block::Table(vec![row(&[(0, 1), (6, 7)])])]);
    assert_eq!(extract_table(&doc, TEXT), Err(shape(Expected::Cell, "tree")));
}

#[test]
fn single_table_document_is_accepted() {
    let doc = document(vec![Block::Table(vec![row(&[(0, 1), (1, 2)]), row(&[(13, 14), (14, 15)])])]);
    assert_eq!(extract_table(&doc, TEXT), Ok(strings(&[&["a", "b"], &["1", "2"]])));
}

#[test]
fn table_without_rows_is_an_empty_table() {
    let doc = document(vec![Block::Table(Vec::new())]);
    assert_eq!(extract_table(&doc, TEXT), Ok(Vec::new()));
}

#[test]
fn ragged_rows_pass_through() {
    let doc = document(vec![Block::Table(vec![row(&[(0, 1), (1, 2), (3, 4)]), row(&[(13, 14), (14, 15)])])]);
    let table = extract_table(&doc, TEXT).unwrap();
    assert_eq!(table, strings(&[&["a", "b", "c"], &["1", "2"]]));
    assert_eq!(table[0].len(), 3);
    assert_eq!(table[1].len(), 2);
}

#[test]
fn document_without_blocks_is_refused() {
    assert_eq!(extract_table(&document(Vec::new()), TEXT), Err(shape(Expected::Table, "tree")));
}

#[test]
fn document_of_another_block_is_refused() {
    assert_eq!(extract_table(&document(vec![Block::Other]), TEXT), Err(shape(Expected::Table, "tree")));
}

#[test]
fn table_beside_another_block_is_refused() {
    let table = Block::Table(vec![row(&[(0, 1)])]);
    assert_eq!(extract_table(&document(vec![table, Block::Other]), TEXT), Err(shape(Expected::Table, "tree")));
    let table = Block::Table(vec![row(&[(0, 1)])]);
    assert_eq!(extract_table(&document(vec![Block::Other, table]), TEXT), Err(shape(Expected::Table, "tree")));
}

#[test]
fn two_tables_are_refused() {
    let first = Block::Table(vec![row(&[(0, 1)])]);
    let second = Block::Table(vec![row(&[(1, 2)])]);
    assert_eq!(extract_table(&document(vec![first, second]), TEXT), Err(shape(Expected::Table, "tree")));
}

#[test]
fn parses_a_two_by_two_table() {
    let table = parse_markdown_table("| a | b |\n| - | - |\n| 1 | 2 |\n");
    assert_eq!(table, Ok(strings(&[&["a", "b"], &["1", "2"]])));
}

#[test]
fn parses_a_table_without_a_final_newline() {
    let table = parse_markdown_table("| a | b |\n| - | - |\n| 1 | 2 |");
    assert_eq!(table, Ok(strings(&[&["a", "b"], &["1", "2"]])));
}

#[test]
fn parses_a_table_without_outer_pipes() {
    let table = parse_markdown_table("a | b\n--- | ---\n1 | 2\n");
    assert_eq!(table, Ok(strings(&[&["a", "b"], &["1", "2"]])));
}

#[test]
fn header_alone_is_a_table_of_one_row() {
    assert_eq!(parse_markdown_table("| a | b |\n| - | - |\n"), Ok(strings(&[&["a", "b"]])));
}

#[test]
fn emphasised_cell_keeps_its_markers() {
    assert_eq!(parse_markdown_table("| *a* |\n| - |\n"), Ok(strings(&[&["*a*"]])));
}

#[test]
fn cell_text_keeps_the_markers_of_inline_formatting() {
    let table = parse_markdown_table("| *a* | `b` |\n| - | - |\n| **c** d | [e](http://x) |\n| x _y_ | ~~z~~ w |\n");
    assert_eq!(table, Ok(strings(&[&["*a*", "`b`"], &["**c** d", "[e](http://x)"], &["x _y_", "~~z~~ w"]])));
}

#[test]
fn cell_text_is_cut_without_the_blanks_around_it() {
    let table = parse_markdown_table("|   a b   |c|\n| - | - |\n");
    assert_eq!(table, Ok(strings(&[&["a b", "c"]])));
}

#[test]
fn cell_text_keeps_a_double_quote() {
    let table = parse_markdown_table("| say \"hi\" | b |\n| - | - |\n");
    assert_eq!(table, Ok(strings(&[&["say \"hi\"", "b"]])));
}

#[test]
fn cell_text_keeps_text_beyond_ascii() {
    let table = parse_markdown_table("| é | 日本 |\n| - | - |\n| *ü* | ö `ä` |\n");
    assert_eq!(table, Ok(strings(&[&["é", "日本"], &["*ü*", "ö `ä`"]])));
}

#[test]
fn empty_cells_have_empty_texts() {
    let table = parse_markdown_table("| a | b |\n| - | - |\n|  | |\n");
    assert_eq!(table, Ok(strings(&[&["a", "b"], &["", ""]])));
}

#[test]
fn empty_input_is_refused() {
    match parse_markdown_table("") {
        Err(TableError::Shape { expected, dump }) => {
            assert_eq!(expected, Expected::Table);
            assert!(dump.contains("Root"));
        }
        other => panic!("{other:?}"),
    }
}

#[test]
fn paragraph_is_refused() {
    match parse_markdown_table("hello world\n") {
        Err(TableError::Shape { expected, dump }) => {
            assert_eq!(expected, Expected::Table);
            assert!(dump.contains("Paragraph"));
            assert!(dump.contains("hello world"));
        }
        other => panic!("{other:?}"),
    }
}

#[test]
fn table_with_a_trailing_paragraph_is_refused() {
    let outcome = parse_markdown_table("| a | b |\n| - | - |\n| 1 | 2 |\n\ntrailing\n");
    assert!(matches!(outcome, Err(TableError::Shape { expected: Expected::Table, .. })));
}

#[test]
fn heading_before_a_table_is_refused() {
    let outcome = parse_markdown_table("# title\n\n| a | b |\n| - | - |\n");
    assert!(matches!(outcome, Err(TableError::Shape { expected: Expected::Table, .. })));
}

#[test]
fn two_consecutive_tables_are_refused() {
    let outcome = parse_markdown_table("| a |\n| - |\n| 1 |\n\n| b |\n| - |\n| 2 |\n");
    assert!(matches!(outcome, Err(TableError::Shape { expected: Expected::Table, .. })));
}

#[test]
fn parsing_twice_gives_the_same_outcome() {
    let input = "| a | *b* |\n| - | - |\n| 1 | 2 |\n";
    assert_eq!(parse_markdown_table(input), parse_markdown_table(input));
    assert_eq!(parse_markdown_table("text"), parse_markdown_table("text"));
}

#[test]
fn text_of_any_kind_is_parsed() {
    for input in ["<div", "{x}", "import a from 'b'", "<a b={c}>", "*", "[x](", "\u{0}", "| a |\n| - "] {
        assert!(!matches!(parse_markdown_table(input), Err(TableError::Parse { .. })));
    }
}

#[test]
fn shape_errors_are_described_with_the_dump() {
    assert_eq!(shape(Expected::Table, "tree").describe(), "input isn't a table: tree");
    assert_eq!(shape(Expected::Row, "node").describe(), "input isn't a row: node");
    assert_eq!(shape(Expected::Cell, "").describe(), "input isn't a cell: ");
}

#[test]
fn other_errors_are_described_by_their_message() {
    assert_eq!(TableError::Parse { message: "bad".to_string() }.describe(), "bad");
    assert_eq!(TableError::Io { message: "closed".to_string() }.describe(), "closed");
}
