use csvtools::csv::read::Record;
use csvtools::csv::write::encode_and_write_quoted;
use csvtools::File;

fn write_record(values: &[&[u8]]) -> Vec<u8> {
    let mut out = Vec::new();
    for (i, v) in values.iter().enumerate() {
        if i != 0 {
            out.push(b',');
        }
        encode_and_write_quoted(&mut out, v).unwrap();
    }
    out
}

fn root_error(r: Result<csvtools::Field, String>) -> String {
    match r {
        Err(e) => e,
        Ok(f) => panic!("expected an error, got field {:?}", f.to_bytes()),
    }
}

#[test]
fn quoted_record_reads_back_as_written() {
    let values: [&[u8]; 5] = [b"plain", b"with, comma", b"say \"hi\"", b"", b"line\nbreak\r\n"];
    let text = write_record(&values);
    let mut fields = Vec::new();
    Record::new(&text).read(&mut fields, Some(values.len())).unwrap();
    assert_eq!(fields.len(), values.len());
    for (f, v) in fields.iter().zip(values.iter()) {
        assert_eq!(f.to_bytes(), v.to_vec());
    }
}

#[test]
fn quoted_field_reads_back_alone() {
    let mut text = Vec::new();
    encode_and_write_quoted(&mut text, b"\"\",\"").unwrap();
    let record = Record::new(&text);
    let mut it = record.iter();
    let f = it.next().unwrap().unwrap();
    assert_eq!(f.to_bytes(), b"\"\",\"".to_vec());
    assert!(it.next().is_none());
}

#[test]
fn quoted_field_rewrites_to_its_text() {
    let mut text = Vec::new();
    encode_and_write_quoted(&mut text, b"a\"b\"\"c").unwrap();
    assert_eq!(text, b"\"a\"\"b\"\"\"\"c\"".to_vec());
    let record = Record::new(&text);
    let mut it = record.iter();
    let f = it.next().unwrap().unwrap();
    let mut again = Vec::new();
    f.write_encoded(&mut again).unwrap();
    assert_eq!(again, text);
}

#[test]
fn unquoted_field_writes_as_it_is() {
    let record = Record::new(b"ab c,d");
    let mut it = record.iter();
    let f = it.next().unwrap().unwrap();
    let mut out = Vec::new();
    f.write_encoded(&mut out).unwrap();
    assert_eq!(out, b"ab c".to_vec());
    let mut raw = Vec::new();
    f.write_to(&mut raw).unwrap();
    assert_eq!(raw, b"ab c".to_vec());
}

#[test]
fn field_compares_equal_to_its_bytes() {
    let record = Record::new(b"x,\"a\"\"b\",\"\"\"\",\"\",");
    let mut it = record.iter();
    while let Some(f) = it.next() {
        let f = f.unwrap();
        let bytes = f.to_bytes();
        assert!(f.contents_eq_in_bounds(&bytes));
        assert!(f.contents_eq(&bytes));
    }
}

#[test]
fn quoted_field_compares_as_prefix() {
    let record = Record::new(b"\"ab\"");
    let f = record.iter().next().unwrap().unwrap();
    assert!(f.contents_eq(b"abc"));
    assert!(!f.contents_eq(b"xbc"));
    assert!(!f.contents_eq_in_bounds(b"a"));
    let record = Record::new(b"ab");
    let f = record.iter().next().unwrap().unwrap();
    assert!(!f.contents_eq(b"abc"));
    assert!(f.contents_eq_in_bounds(b"a"));
    assert!(!f.contents_eq(b"a"));
}

#[test]
fn file_read_takes_record_and_line_end() {
    let data = b"a,b\r\n\"x\ny\",z\nlast";
    let mut f = File::new(data);
    let r = f.read().unwrap().unwrap();
    let mut it = r.iter();
    assert_eq!(it.next().unwrap().unwrap().to_bytes(), b"a".to_vec());
    assert_eq!(it.next().unwrap().unwrap().to_bytes(), b"b".to_vec());
    assert!(it.next().is_none());
    let r = f.read().unwrap().unwrap();
    let mut it = r.iter();
    assert_eq!(it.next().unwrap().unwrap().to_bytes(), b"x\ny".to_vec());
    assert_eq!(it.next().unwrap().unwrap().to_bytes(), b"z".to_vec());
    assert!(it.next().is_none());
    assert_eq!(f.read_to_vec(), vec!["last"]);
    assert!(f.read().unwrap().is_none());
    assert!(f.read().unwrap().is_none());
}

#[test]
fn file_drops_unbalanced_tail_after_first_read() {
    let mut f = File::new(b"a\n\"open\nmore");
    assert_eq!(f.read_to_vec(), vec!["a"]);
    assert!(f.read().unwrap().is_none());
    assert!(f.read().unwrap().is_none());
}

#[test]
fn file_first_read_keeps_unbalanced_input() {
    let mut f = File::new(b"\"open\nmore");
    let r = f.read().unwrap().unwrap();
    assert_eq!(root_error(r.iter().next().unwrap()), "unclosed double quote");
    assert!(f.read().unwrap().is_none());
}
