use csvtools::csv::read::{RecordScan, ScanStep};

fn step(s: ScanStep) -> String {
    match s {
        ScanStep::ReadMore => "more".to_string(),
        ScanStep::Record(n) => format!("record {}", n),
        ScanStep::End => "end".to_string(),
    }
}

#[test]
fn balanced_line_completes_without_line_end() {
    let mut scan = RecordScan::new(false);
    assert_eq!(step(scan.feed(b"a,\"b\"\r\n", 0)), "record 5");
}

#[test]
fn open_quote_reads_more_lines() {
    let mut scan = RecordScan::new(true);
    let buffer = b"\"a\nb\",c\nx";
    assert_eq!(step(scan.feed(&buffer[..3], 0)), "more");
    assert_eq!(step(scan.feed(&buffer[..8], 3)), "record 7");
}

#[test]
fn end_of_input() {
    let mut scan = RecordScan::new(true);
    assert_eq!(step(scan.feed(b"", 0)), "end");
    let mut scan = RecordScan::new(false);
    assert_eq!(step(scan.feed(b"", 0)), "record 0");
    let mut scan = RecordScan::new(false);
    assert_eq!(step(scan.feed(b"\"x\n", 0)), "more");
    assert_eq!(step(scan.feed(b"\"x\n", 3)), "record 3");
    let mut scan = RecordScan::new(true);
    assert_eq!(step(scan.feed(b"\"x\n", 0)), "more");
    assert_eq!(step(scan.feed(b"\"x\n", 3)), "end");
}
