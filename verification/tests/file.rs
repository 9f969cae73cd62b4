use csvtools::File;
#[test]
fn reads_one_unquoted_row() {
    let mut f = File::new("a,bc , def".as_bytes());

    let vec = f.read_to_vec();

    assert_eq!(vec!["a", "bc ", " def"], vec);
}

#[test]
fn reads_three_unquoted_rows() {
    let mut f = File::new("a,b\n1,2,3\n3".as_bytes());

    assert_eq!(vec!["a", "b"], f.read_to_vec());
    assert_eq!(vec!["1", "2", "3"], f.read_to_vec(),);
    assert_eq!(vec!["3"], f.read_to_vec(),);
    assert!(f.read().unwrap().is_none());
}

#[test]
fn reads_empty_string_as_one_empty_field() {
    let mut f = File::new("".as_bytes());

    assert_eq!(vec![""], f.read_to_vec());
    assert!(f.read().unwrap().is_none());
}

#[test]
fn reads_newline_as_one_empty_fiel() {
    let mut f = File::new("\n".as_bytes());

    assert_eq!(vec![""], f.read_to_vec());
    assert!(f.read().unwrap().is_none());

    let mut f = File::new("\r\n".as_bytes());

    assert_eq!(vec![""], f.read_to_vec());
    assert!(f.read().unwrap().is_none());
}

#[test]
fn reads_one_single_empty_field_row_for_single_field() {
    let mut f = File::new(" Hello world! ".as_bytes());

    assert_eq!(vec![" Hello world! "], f.read_to_vec());
    assert!(f.read().unwrap().is_none());
}

#[test]
fn reads_one_quoted_field() {
    let mut f = File::new("\" Hello world! \"".as_bytes());

    assert_eq!(vec![" Hello world! "], f.read_to_vec());
    assert!(f.read().unwrap().is_none());
}

#[test]
fn reads_one_quoted_field_with_comma() {
    let mut f = File::new("\" Hello, world! \"".as_bytes());

    assert_eq!(vec![" Hello, world! "], f.read_to_vec(),);
    assert!(f.read().unwrap().is_none());
}

#[test]
fn reads_single_character_quoted_field() {
    let mut f = File::new("\"a\"".as_bytes());

    assert_eq!(vec!["a"], f.read_to_vec());
    assert!(f.read().unwrap().is_none());
}

#[test]
fn reads_comma_character_quoted_field() {
    let mut f = File::new("\",\"".as_bytes());

    assert_eq!(vec![","], f.read_to_vec());
    assert!(f.read().unwrap().is_none());
}

#[test]
fn reads_quoted_field_with_newlines() {
    let mut f = File::new("\"i\nlike\r\nyou\"".as_bytes());
    assert_eq!(vec!["i\nlike\r\nyou"], f.read_to_vec());
    assert!(f.read().unwrap().is_none());
}

#[test]
fn reads_double_quote_alone_in_quoted_field() {
    let mut f = File::new("\"\"\"\"".as_bytes());
    assert_eq!(vec!["\""], f.read_to_vec());
    assert!(f.read().unwrap().is_none());
}

#[test]
fn error_quote_in_unquoted_field() {
    let mut f = File::new("data,\"bad_quote,more_data".as_bytes());
    let record = f.read().unwrap().expect("Should find a row");
    let mut iter = record.iter();

    assert!(iter.next().unwrap().is_ok());
    assert!(iter.next().unwrap().is_err());
}

#[test]
fn error_stray_quote_in_quoted_field() {
    let mut f = File::new("\"The \"Great\" Gatsby\",1925".as_bytes());
    let record = f.read().unwrap().expect("Should find a row");
    let mut iter = record.iter();

    assert!(iter.next().unwrap().is_err());
}

#[test]
fn error_incomplete_escape_at_end_of_field() {
    let mut f = File::new("\"starts but never ends".as_bytes());
    assert!(f.read().unwrap().unwrap().iter().next().unwrap().is_err());
}

#[test]
fn error_garbage_after_closing_quote() {
    let mut f = File::new("\"field\"invalid_continuation,next".as_bytes());
    let record = f.read().unwrap().expect("Should find a row");
    let mut iter = record.iter();

    assert!(iter.next().unwrap().is_err());
}

#[test]
fn error_imbalanced_quotes_multiline() {
    let mut f = File::new("\"line one\n line two \"\" still open\n".as_bytes());
    assert!(f.read().unwrap().unwrap().iter().next().unwrap().is_err());
}
