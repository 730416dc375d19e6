use stack_machine::csv::{skip_next, take_and_skip, take_until};

#[test]
fn parse_text_test() {
    assert_eq!(skip_next("foo", 'f'), Some("oo"));
    assert_eq!(skip_next("foo", 'a'), None);
    assert_eq!(take_until("one/", '/'), ("one", "/"));
    assert_eq!(take_until("one/two", '/'), ("one", "/two"));
    assert_eq!(take_until("onetwo", '/'), ("onetwo", ""));
    assert_eq!(take_and_skip(" го/шо ", '/'), Some((" го", "шо ")));
    assert_eq!(take_and_skip(" го/шо ", 'о'), Some((" г", "/шо ")));
    assert_eq!(take_and_skip(" го/шa", 'a'), Some((" го/ш", "")));
    assert_eq!(take_and_skip(" го/шо ", 'a'), None);
    assert_eq!(
        take_and_skip(",'12','13','14'", '\''),
        Some((",", "12','13','14'"))
    );
    assert_eq!(take_and_skip("asdf,", ','), Some(("asdf", "")));
}

#[test]
fn test_string_parsing() {
    assert_eq!(skip_next("[test]", '['), Some("test]"));
    assert_eq!(take_until("one/two", '/'), ("one", "/two"));
    assert_eq!(take_and_skip("one/two", '/'), Some(("one", "two")));
}

#[test]
fn skip_next_on_empty() {
    assert_eq!(skip_next("", 'a'), None);
    assert_eq!(take_until("", 'a'), ("", ""));
}

use stack_machine::csv::{header_line, parse_header, parse_row, row_line, trim, CsvError};

fn strings(items: &[&str]) -> Vec<String> {
    items.iter().map(|s| s.to_string()).collect()
}

fn row_error(result: Result<Vec<String>, CsvError>) -> String {
    match result {
        Err(CsvError::InvalidRow(m)) => m,
        other => panic!("expected InvalidRow, got {:?}", other),
    }
}

#[test]
fn test_new() {
    let c = parse_header(Some("name, age, date")).unwrap();
    assert_eq!(c, vec!["name", "age", "date"]);

    assert!(matches!(parse_header(None), Err(CsvError::InvalidHeader(_))));
    assert!(matches!(
        parse_header(Some("name, name, age, some, name")),
        Err(CsvError::InvalidHeader(_))
    ));

    assert_eq!(
        parse_header(Some("name,age,date")).unwrap(),
        vec!["name", "age", "date"]
    );
}

#[test]
fn header_details() {
    assert_eq!(
        parse_header(Some("name, age, birth date\n")).unwrap(),
        vec!["name", "age", "birth date"]
    );
    match parse_header(Some("a,b,a")) {
        Err(CsvError::InvalidHeader(m)) => assert_eq!(m, "Duplicate column names"),
        other => panic!("{:?}", other),
    }
    match parse_header(None) {
        Err(CsvError::InvalidHeader(m)) => assert_eq!(m, "No header"),
        other => panic!("{:?}", other),
    }
    assert_eq!(parse_header(Some("")).unwrap(), vec![""]);
}

#[test]
fn test_parse_row() {
    let c = parse_header(Some("name, age, date")).unwrap();
    let row = parse_row(&c, "\"gosho\",\"17\",\"17.10\"").unwrap();
    assert_eq!(row, vec!["gosho", "17", "17.10"]);
    let row = parse_row(&c, "\"gosho, hello\" , \"17\", \"17.10\"").unwrap();
    assert_eq!(row, vec!["gosho, hello", "17", "17.10"]);
}

#[test]
fn row_values() {
    let columns = strings(&["name", "age", "date"]);
    assert_eq!(
        parse_row(&columns, "  \"Douglas Adams\", \"42\", \"1952-03-11\"\n").unwrap(),
        vec!["Douglas Adams", "42", "1952-03-11"]
    );
    let birth = strings(&["name", "age", "birth date"]);
    assert_eq!(
        parse_row(&birth, r#""Basic Name","13","2020-01-01""#).unwrap(),
        vec!["Basic Name", "13", "2020-01-01"]
    );
}

#[test]
fn row_errors() {
    let columns = strings(&["a", "b"]);
    assert_eq!(row_error(parse_row(&columns, "x\"1\",\"2\"")), "Invalid beginning of row");
    assert_eq!(row_error(parse_row(&columns, "")), "Invalid beginning of row");
    assert_eq!(row_error(parse_row(&columns, "\"1")), "Missing closing quotation mark");
    assert_eq!(row_error(parse_row(&columns, "\"1\",")), "Missing opening quotation mark");
    assert_eq!(row_error(parse_row(&columns, "\"1\";\"2\"")), "Delimiter error");
    assert_eq!(row_error(parse_row(&columns, "\"1\",\"2\",\"3\"")), "Not enough values in row");
    assert_eq!(parse_row(&Vec::new(), "\"anything").unwrap(), Vec::<String>::new());
}

#[test]
fn output_lines() {
    let columns = strings(&["name", "age", "birth date"]);
    assert_eq!(header_line(&columns), "name, age, birth date\n");
    let values = strings(&["Gen Z. Person", "20", "2000-01-01"]);
    assert_eq!(row_line(&values), "\"Gen Z. Person\", \"20\", \"2000-01-01\"\n");
    assert_eq!(header_line(&Vec::new()), "\n");
    assert_eq!(row_line(&strings(&["x"])), "\"x\"\n");
}

#[test]
fn trimming() {
    assert_eq!(trim("  a b \t\n"), "a b");
    assert_eq!(trim("   "), "");
    assert_eq!(trim("\u{3000}x\u{a0}"), "x");
}
