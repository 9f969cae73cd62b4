use csvtools::csv::error::{Error, ErrorKind};
use csvtools::csv::read::{read_record, ByteReader, Record};
use csvtools::Record as RootRecord;
use csvtools::File;

fn root_error(r: Result<csvtools::Field, String>) -> String {
    match r {
        Err(e) => e,
        Ok(f) => panic!("expected an error, got field {:?}", f.to_bytes()),
    }
}

#[test]
fn kind_messages() {
    assert_eq!(
        ErrorKind::FieldCount { want: 3, got: 12 }.to_string(),
        "expected `3` fields but found `12`"
    );
    assert_eq!(ErrorKind::UnclosedQuote.to_string(), "unclosed quote");
    assert_eq!(ErrorKind::InvalidByte(b'x').to_string(), "invalid character `x`");
    assert_eq!(ErrorKind::InvalidByte(0xAB).to_string(), "unexpected byte `0xAB`");
    assert_eq!(ErrorKind::InvalidByte(0x80).to_string(), "unexpected byte `0x80`");
    assert_eq!(
        ErrorKind::DoubleQuoteInUnescapedField.to_string(),
        "double quote in unescaped field"
    );
    assert_eq!(
        ErrorKind::NonCommaAfterQuote(b';').to_string(),
        "expected comma or newline after double quote but found `;`"
    );
    let io = std::io::Error::new(std::io::ErrorKind::Other, "disk on fire");
    assert_eq!(ErrorKind::IO(io).to_string(), "disk on fire");
}

#[test]
fn error_messages_with_positions() {
    let e = Error::new(ErrorKind::UnclosedQuote);
    assert_eq!(e.to_string(), "unclosed quote");
    let e = Error::new(ErrorKind::UnclosedQuote).field_num(0);
    assert_eq!(e.to_string(), "field `1`: unclosed quote");
    let e = Error::new(ErrorKind::UnclosedQuote).field_name("name".to_string());
    assert_eq!(e.to_string(), "field `name`: unclosed quote");
    let e = Error::new(ErrorKind::UnclosedQuote).record_num(7);
    assert_eq!(e.to_string(), "record `7`: unclosed quote");
    let e = Error::new(ErrorKind::UnclosedQuote).record_num(7).field_num(9);
    assert_eq!(e.to_string(), "record `7`: field: `10`: unclosed quote");
    let e = Error::new(ErrorKind::UnclosedQuote)
        .record_num(0)
        .field_num(9)
        .field_name("id".to_string());
    assert_eq!(e.to_string(), "record `0`: field: `id`: unclosed quote");
}

#[test]
fn error_builders_set_one_thing() {
    let e = Error::new(ErrorKind::InvalidByte(1));
    assert!(e.record.is_none() && e.field.is_none() && e.field_name.is_none());
    let e = e.record_num(4);
    assert_eq!(e.record, Some(4));
    assert!(e.field.is_none() && e.field_name.is_none());
    let e = e.field_num(2);
    assert_eq!((e.record, e.field), (Some(4), Some(2)));
    let e = e.field_name("f".to_string());
    assert_eq!(e.field_name.as_deref(), Some("f"));
    assert!(matches!(e.kind, ErrorKind::InvalidByte(1)));
}

#[test]
fn errors_from_kinds_and_io() {
    let e: Error = ErrorKind::UnclosedQuote.into();
    assert!(matches!(e.kind, ErrorKind::UnclosedQuote));
    assert!(e.record.is_none());
    let e: Error = std::io::Error::new(std::io::ErrorKind::Other, "x").into();
    assert!(matches!(e.kind, ErrorKind::IO(_)));
}

#[test]
fn record_read_reports_field_of_error() {
    let mut buf = Vec::new();
    let e = Record::new(b"a,\"b\"x,c").read(&mut buf, None).unwrap_err();
    assert!(matches!(e.kind, ErrorKind::InvalidByte(b'x')));
    assert_eq!(e.field, Some(1));
    assert_eq!(buf.len(), 1);

    let mut buf = Vec::new();
    let e = Record::new(b"a,b\"c").read(&mut buf, None).unwrap_err();
    assert!(matches!(e.kind, ErrorKind::DoubleQuoteInUnescapedField));
    assert_eq!(e.field, Some(1));

    let mut buf = Vec::new();
    let e = Record::new(b"\"open").read(&mut buf, None).unwrap_err();
    assert!(matches!(e.kind, ErrorKind::UnclosedQuote));
    assert_eq!(e.field, Some(0));
    assert!(buf.is_empty());
}

#[test]
fn record_read_counts_before_looking_at_a_field() {
    let mut buf = Vec::new();
    let e = Record::new(b"a,b,\"bad").read(&mut buf, Some(2)).unwrap_err();
    assert!(matches!(e.kind, ErrorKind::FieldCount { want: 2, got: 2 }));
    assert_eq!(e.field, None);
    assert_eq!(buf.len(), 2);

    let mut buf = Vec::new();
    let e = Record::new(b"a,b").read(&mut buf, Some(5)).unwrap_err();
    assert!(matches!(e.kind, ErrorKind::FieldCount { want: 5, got: 2 }));
    assert_eq!(buf.len(), 2);
}

#[test]
fn malformed_field_error_repeats() {
    let record = Record::new(b"x,y\"z,w");
    let mut it = record.iter();
    assert!(it.next().unwrap().is_ok());
    assert!(it.next().unwrap().is_err());
    assert!(it.next().unwrap().is_err());
}

#[test]
fn quote_in_last_unquoted_field_ends_iteration() {
    let record = Record::new(b"x,y\"z");
    let mut it = record.iter();
    assert!(it.next().unwrap().is_ok());
    assert!(matches!(
        it.next().unwrap().unwrap_err().kind,
        ErrorKind::DoubleQuoteInUnescapedField
    ));
    assert!(it.next().is_none());
}

#[test]
fn root_iterator_messages() {
    let mut f = File::new(b"\"field\"invalid_continuation,next");
    let r = f.read().unwrap().unwrap();
    assert_eq!(root_error(r.iter().next().unwrap()), "unexpected byte `0x69`");
    let mut f = File::new(b"data,bad\"quote");
    let r: RootRecord = f.read().unwrap().unwrap();
    let mut it = r.iter();
    assert!(it.next().unwrap().is_ok());
    assert_eq!(root_error(it.next().unwrap()), "double quote in unescaped field");
    assert!(it.next().is_none());
}

#[test]
fn lossy_text_of_invalid_utf8() {
    let record = Record::new(b"a\xffb,\"\xc3\xa9\"");
    let mut it = record.iter();
    assert_eq!(it.next().unwrap().unwrap().to_string(), "a\u{FFFD}b");
    assert_eq!(it.next().unwrap().unwrap().to_string(), "\u{e9}");
}

#[test]
fn byte_reader_reads_lines() {
    let mut r = ByteReader::new(b"ab\ncd");
    let mut buf = Vec::new();
    assert_eq!(r.read_until(b'\n', &mut buf).unwrap(), 3);
    assert_eq!(r.read_until(b'\n', &mut buf).unwrap(), 2);
    assert_eq!(r.read_until(b'\n', &mut buf).unwrap(), 0);
    assert_eq!(buf, b"ab\ncd".to_vec());
}

#[test]
fn read_record_keeps_quoted_newlines() {
    let mut r = ByteReader::new(b"\"a\nb\",c\r\nd\n");
    let mut buf = Vec::new();
    assert_eq!(read_record(&mut r, &mut buf).unwrap(), 9);
    assert_eq!(buf, b"\"a\nb\",c".to_vec());
    buf.clear();
    assert_eq!(read_record(&mut r, &mut buf).unwrap(), 2);
    assert_eq!(buf, b"d".to_vec());
    buf.clear();
    assert_eq!(read_record(&mut r, &mut buf).unwrap(), 0);
    assert!(buf.is_empty());
}
