use tose_converter::table::ParseError;
use tose_converter::table::PsqlTable;
use tose_converter::ToseConverter;

#[test]
fn test_scenario_table_to_tose() {
    // The whole pipeline on a small rendered table with a footer
    let converter = ToseConverter::new();
    let input = b"  id | name \n------+------\n  1  | Alice\n  2  | Bob\n(2 rows)\n";

    let output = converter.convert(&input.to_vec()).unwrap();

    assert_eq!(String::from_utf8(output).unwrap(), "result[2]{id,name}:\n1,Alice\n2,Bob\n");
}

#[test]
fn test_column_mismatch_reports_both_counts() {
    // Two header fields against a three-piece data row
    let input = b"id|name\n------\n1|Alice|extra\n";
    let result = PsqlTable::parse(&input.to_vec());
    assert_eq!(result.unwrap_err(), ParseError::ColumnMismatch { expected: 2, found: 3 });
}

#[test]
fn test_error_empty_input_variant() {
    let result = PsqlTable::parse(&b"".to_vec());
    assert_eq!(result.unwrap_err(), ParseError::EmptyInput);
}

#[test]
fn test_error_no_separator_variant() {
    let result = PsqlTable::parse(&b"id|name\n1|Alice\n".to_vec());
    assert_eq!(result.unwrap_err(), ParseError::NoSeparator);
}

#[test]
fn test_error_missing_header_variant() {
    // The separator is the very first line
    let result = PsqlTable::parse(&b"------\n1|Alice\n".to_vec());
    assert_eq!(result.unwrap_err(), ParseError::MissingHeader);
}

#[test]
fn test_error_no_columns_variant() {
    // The header line trims away entirely
    let result = PsqlTable::parse(&b"  |  \n------\n1|2\n".to_vec());
    assert_eq!(result.unwrap_err(), ParseError::NoColumns);
}

#[test]
fn test_second_separator_ends_data_rows() {
    // A second separator line stops consumption, exclusive
    let input = b" a | b \n---+---\n 1 | 2 \n---+---\n x | y \n";
    let table = PsqlTable::parse(&input.to_vec()).unwrap();
    assert_eq!(table.rows.len(), 1);
    assert_eq!(table.rows[0], vec![b"1".to_vec(), b"2".to_vec()]);
}

#[test]
fn test_blank_lines_between_rows_skipped() {
    let input = b" a \n---\n 1 \n   \n 2 \n";
    let table = PsqlTable::parse(&input.to_vec()).unwrap();
    assert_eq!(table.rows.len(), 2);
}

#[test]
fn test_footer_requires_row_marker() {
    // A parenthesized line without the letters "row" is a data row, not a
    // footer
    let input = b" a \n---\n (1) \n";
    let table = PsqlTable::parse(&input.to_vec()).unwrap();
    assert_eq!(table.rows.len(), 1);
    assert_eq!(table.rows[0], vec![b"(1)".to_vec()]);
}

#[test]
fn test_header_with_zero_fields_renders_empty_braces() {
    let converter = ToseConverter::new();
    let columns: Vec<Vec<u8>> = Vec::new();
    let header = converter.generate_header(0, &columns);
    assert_eq!(String::from_utf8(header).unwrap(), "result[0]{}:\n");
}

#[test]
fn test_default_converter_matches_new() {
    let input = b" a \n---\n 1 \n";
    let by_new = ToseConverter::new().convert(&input.to_vec()).unwrap();
    let by_default = ToseConverter::default().convert(&input.to_vec()).unwrap();
    assert_eq!(by_new, by_default);
}

#[test]
fn test_escape_empty_cell_round_trip() {
    // A blank cell parses to the empty string and escapes to an empty field
    let input = b" a | b \n---+---\n 1 |   \n";
    let table = PsqlTable::parse(&input.to_vec()).unwrap();
    assert_eq!(table.rows[0][1], b"".to_vec());
    assert_eq!(PsqlTable::escape_csv_field(&table.rows[0][1]), b"".to_vec());
}

#[test]
fn test_escape_simple_value_unchanged() {
    // A value free of comma, quote and line breaks escapes to itself
    let field = b"plain value".to_vec();
    assert_eq!(PsqlTable::escape_csv_field(&field), field);
}

#[test]
fn test_escape_doubles_every_quote() {
    let field = b"a\"b\"c".to_vec();
    assert_eq!(PsqlTable::escape_csv_field(&field), b"\"a\"\"b\"\"c\"".to_vec());
}

#[test]
fn test_escape_newline_and_carriage_return_quoted() {
    assert_eq!(PsqlTable::escape_csv_field(&b"a\nb".to_vec()), b"\"a\nb\"".to_vec());
    assert_eq!(PsqlTable::escape_csv_field(&b"a\rb".to_vec()), b"\"a\rb\"".to_vec());
}
