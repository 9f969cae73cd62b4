use csvtools::csv::write::encode_and_write_quoted;
#[test]
fn encodes_with_none_escaped() {
    let mut s = Vec::new();
    encode_and_write_quoted(&mut s, b"hello you!").unwrap();
    assert_eq!(b"\"hello you!\"", s.as_slice())
}

#[test]
fn encodes_with_escaped() {
    let mut s = Vec::new();
    encode_and_write_quoted(&mut s, b"\"hello\" you!").unwrap();
    assert_eq!(b"\"\"\"hello\"\" you!\"", s.as_slice())
}

#[test]
fn num_written_no_quotes() {
    let mut s = Vec::new();
    let n = encode_and_write_quoted(&mut s, b"123456").unwrap();
    assert_eq!(n, 8);
}

#[test]
fn num_written_2_for_empty_string() {
    let mut s = Vec::new();
    let n = encode_and_write_quoted(&mut s, b"").unwrap();
    assert_eq!(n, 2);
}

#[test]
fn num_written_4_with_single_inner_quote() {
    let mut s = Vec::new();
    let n = encode_and_write_quoted(&mut s, b"\"").unwrap();
    assert_eq!(n, 4);
}

#[test]
fn num_written_with_quotes() {
    let mut s = Vec::new();
    let n = encode_and_write_quoted(
        &mut s,
        b"He said, \"I love thee above all maids.\"",
    )
    .unwrap();
    assert_eq!(n, 43);
}
