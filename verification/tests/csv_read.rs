use csvtools::csv::read::{read_record, ByteReader, Record};

fn bbr(bytes: &[u8]) -> ByteReader<'_> {
    ByteReader::new(bytes)
}

#[test]
fn nothing_from_empty_reader() {
    let mut buf = vec![];
    let n = read_record(&mut bbr(b""), &mut buf).unwrap();

    assert_eq!(0, n);
    assert_eq!(b"", buf.as_slice())
}

#[test]
fn two_records_with_lf() {
    let mut buf = vec![];
    let mut reader = bbr(b"a,b,c\n1,2,3");
    let n = read_record(&mut reader, &mut buf).unwrap();

    assert_eq!(6, n);
    assert_eq!(b"a,b,c", buf.as_slice());

    buf.clear();
    let n = read_record(&mut reader, &mut buf).unwrap();

    assert_eq!(5, n);
    assert_eq!(b"1,2,3", buf.as_slice());
}

#[test]
fn single_record_with_lf_at_end() {
    let mut buf = vec![];
    let mut reader = bbr(b"however,I,cannot,say\n");
    let n = read_record(&mut reader, &mut buf).unwrap();

    assert_eq!(21, n);
    assert_eq!(b"however,I,cannot,say", buf.as_slice());
}

#[test]
fn two_records_with_crlf() {
    let mut buf = vec![];
    let mut reader = bbr(b"a,b,c\r\n1,2,3");
    let n = read_record(&mut reader, &mut buf).unwrap();

    assert_eq!(7, n);
    assert_eq!(b"a,b,c", buf.as_slice());

    buf.clear();
    let n = read_record(&mut reader, &mut buf).unwrap();

    assert_eq!(5, n);
    assert_eq!(b"1,2,3", buf.as_slice());
}

#[test]
fn single_record_with_crlf_at_end() {
    let mut buf = vec![];
    let mut reader = bbr(b"however,I,cannot,say\r\n");
    let n = read_record(&mut reader, &mut buf).unwrap();

    assert_eq!(22, n);
    assert_eq!(b"however,I,cannot,say", buf.as_slice());
}

#[test]
fn even_numbers_of_quotes() {
    let mut buf = vec![];
    let mut reader = bbr(b"\"123\"\r\n1\"2\"3\n");
    let n = read_record(&mut reader, &mut buf).unwrap();

    assert_eq!(7, n);
    assert_eq!(b"\"123\"", buf.as_slice());

    buf.clear();
    let n = read_record(&mut reader, &mut buf).unwrap();
    assert_eq!(6, n);
    assert_eq!(b"1\"2\"3", buf.as_slice());
}

#[test]
fn odd_number_of_quotes_reads_to_eof() {
    let mut buf = vec![];
    let mut reader = bbr(b"\"12\"3\"\r\n1\"2\"3\n");
    let n = read_record(&mut reader, &mut buf).unwrap();

    assert_eq!(14, n);
    assert_eq!(b"\"12\"3\"\r\n1\"2\"3\n", buf.as_slice());

    buf.clear();
    let n = read_record(&mut reader, &mut buf).unwrap();
    assert_eq!(0, n);
    assert_eq!(b"", buf.as_slice());
}

#[test]
fn appends_to_buffer() {
    let mut buf = vec![];
    let mut reader = bbr(b"a\nb");
    let n = read_record(&mut reader, &mut buf).unwrap();
    assert_eq!(2, n);
    let n = read_record(&mut reader, &mut buf).unwrap();
    assert_eq!(1, n);
    assert_eq!(b"ab", buf.as_slice());
}


#[test]
fn empty_string_to_empty_field() {
    let record = Record::new(b"");

    let mut i = record.iter();
    let first = i.next().unwrap().unwrap();
    assert!(first.contents_eq(b""));
    assert!(i.next().is_none());
}

#[test]
fn single_non_empty_field() {
    let record = Record::new(b"hfo d ");

    let mut i = record.iter();
    let first = i.next().unwrap().unwrap();
    assert!(first.contents_eq(b"hfo d "));
    assert!(i.next().is_none());
}

#[test]
fn three_fields() {
    let record = Record::new(b"hfo, d, ");

    let mut i = record.iter();
    assert!(i.next().unwrap().unwrap().contents_eq(b"hfo"));
    assert!(i.next().unwrap().unwrap().contents_eq(b" d"));
    assert!(i.next().unwrap().unwrap().contents_eq(b" "));
    assert!(i.next().is_none());
}

#[test]
fn empty_quoted_field() {
    let record = Record::new(b"\"\"");

    let mut i = record.iter();
    assert!(i.next().unwrap().unwrap().contents_eq(b""));
    assert!(i.next().is_none());
}

#[test]
fn quoted_field_with_comma_therein() {
    let record = Record::new(b"\",\"");

    let mut i = record.iter();
    assert!(i.next().unwrap().unwrap().contents_eq(b","));
    assert!(i.next().is_none());
}
#[test]
fn quoted_field_with_escaped_quote() {
    let record = Record::new(b"\"\"\"\"");

    let mut i = record.iter();
    assert!(i.next().unwrap().unwrap().contents_eq(b"\""));
    assert!(i.next().is_none());
}

#[test]
fn mixed_fields() {
    let record = Record::new(b"hey,\"you, \"\"guys\"\"\",be");

    let mut i = record.iter();
    assert!(i.next().unwrap().unwrap().contents_eq(b"hey"));
    assert!(i.next().unwrap().unwrap().contents_eq(b"you, \"guys\""));
    assert!(i.next().unwrap().unwrap().contents_eq(b"be"));
    assert!(i.next().is_none());
}


#[test]
fn no_expected_field_count() {
    let mut buf = vec![];
    Record::new(b"hey,\"you, \"\"guys\"\"\",be")
        .read(&mut buf, None)
        .unwrap();

    let mut i = buf.iter();
    assert!(i.next().unwrap().contents_eq(b"hey"));
    assert!(i.next().unwrap().contents_eq(b"you, \"guys\""));
    assert!(i.next().unwrap().contents_eq(b"be"));
    assert!(i.next().is_none());
}

#[test]
fn expected_field_count_success() {
    let mut buf = vec![];
    Record::new(b"hey,\"you, \"\"guys\"\"\",be")
        .read(&mut buf, Some(3))
        .unwrap();

    let mut i = buf.iter();
    assert!(i.next().unwrap().contents_eq(b"hey"));
    assert!(i.next().unwrap().contents_eq(b"you, \"guys\""));
    assert!(i.next().unwrap().contents_eq(b"be"));
    assert!(i.next().is_none());
}

#[test]
fn expected_field_count_failure_too_many() {
    let mut buf = vec![];
    assert!(
        Record::new(b"hey,\"you, \"\"guys\"\"\",be")
            .read(&mut buf, Some(2))
            .is_err()
    );
}

#[test]
fn expected_field_count_failure_too_few() {
    let mut buf = vec![];
    assert!(
        Record::new(b"hey,\"you, \"\"guys\"\"\",be")
            .read(&mut buf, Some(4))
            .is_err()
    );
}
