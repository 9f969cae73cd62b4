//! Reading CSV records from bytes, and the fields from a record.
use vstd::prelude::*;
use vstd::utf8::{decode_utf8, valid_utf8};

use super::error::{Error, ErrorKind};
use super::grammar::{
    append_slice, content_len, content_length, contents_eq_defined, contents_eq_spec, count_byte,
    count_quotes, encoded, field_well_formed, lemma_next_field_well_formed, lemma_count_byte_concat, lemma_next_field_shrinks,
    lemma_parse_fields_step, lemma_until_end_bounds, lossy_text, next_field, parse_fields,
    record_end, scan_field, strip_line_end, until_end, until_end_exec, FieldData, FieldModel,
    FieldScan, FieldStep, ParseFault, NEWLINE, QUOTE,
};

verus! {

broadcast use vstd::seq_lib::group_seq_properties;

/// An input of bytes, read from front to back.
pub struct ByteReader<'a> {
    data: &'a [u8],
    pos: usize,
}

impl<'a> ByteReader<'a> {
    #[verifier::type_invariant]
    spec fn inv(&self) -> bool {
        self.pos <= self.data@.len()
    }

    /// All the bytes of the input.
    pub closed spec fn data(&self) -> Seq<u8> {
        self.data@
    }

    /// How many bytes have been read.
    pub closed spec fn pos(&self) -> nat {
        self.pos as nat
    }

    pub fn new(data: &'a [u8]) -> (res: Self)
        ensures
            res.data() == data@,
            res.pos() == 0,
    {
        ByteReader { data, pos: 0 }
    }

    /// Appends to `buf` the bytes up to and including the next `byte`, or up
    /// to the end of the input, and returns how many were appended.
    pub fn read_until(&mut self, byte: u8, buf: &mut Vec<u8>) -> (res: Result<usize, std::io::Error>)
        ensures
            final(self).data() == old(self).data(),
            final(self).pos() == until_end(old(self).data(), byte, old(self).pos()),
            res matches Ok(n) && n == final(self).pos() - old(self).pos(),
            final(buf)@ == old(buf)@ + old(self).data().subrange(
                old(self).pos() as int,
                final(self).pos() as int,
            ),
    {
        proof {
            use_type_invariant(&*self);
        }
        let start = self.pos;
        let end = until_end_exec(self.data, byte, start);
        proof {
            lemma_until_end_bounds(self.data@, byte, start as nat);
        }
        append_slice(buf, vstd::slice::slice_subrange(self.data, start, end));
        self.pos = end;
        Ok(end - start)
    }
}

/// What to do after a line of input was added to a record's bytes.
pub enum ScanStep {
    /// The quotes do not balance yet: read another line.
    ReadMore,
    /// The record is complete: keep this many of its bytes.
    Record(usize),
    /// The input ended, and there is no record.
    End,
}

/// Where the reading of one record stands, line by line: whether the quotes
/// read so far are odd, and whether the end of the input means there is no
/// record at all.
pub struct RecordScan {
    odd: bool,
    may_end: bool,
}

/// One step of reading a record: `buffer` holds the record's bytes read so
/// far, of which those from `last` on are the line just read (empty at the
/// end of the input). At the end of the input the record is complete as it
/// is (or, if `may_end`, there is none); when the quotes balance it is
/// complete without its line end; otherwise another line is needed. Gives
/// the step and whether the quotes are now odd.
pub open spec fn scan_step(odd: bool, may_end: bool, buffer: Seq<u8>, last: nat) -> (
    ScanStep,
    bool,
) {
    let line = buffer.skip(last as int);
    if line.len() == 0 {
        (
            if may_end {
                ScanStep::End
            } else {
                ScanStep::Record(buffer.len() as usize)
            },
            odd,
        )
    } else {
        let now_odd = odd != (count_byte(line, QUOTE) % 2 == 1);
        if now_odd {
            (ScanStep::ReadMore, now_odd)
        } else {
            (ScanStep::Record(content_len(buffer) as usize), now_odd)
        }
    }
}

impl RecordScan {
    /// Whether the quotes read so far are odd.
    pub closed spec fn odd(&self) -> bool {
        self.odd
    }

    /// Whether the end of the input means there is no record.
    pub closed spec fn may_end(&self) -> bool {
        self.may_end
    }

    pub fn new(may_end: bool) -> (res: Self)
        ensures
            !res.odd(),
            res.may_end() == may_end,
    {
        RecordScan { odd: false, may_end }
    }

    /// Decides what follows the line `buffer[last..]` just read.
    pub fn feed(&mut self, buffer: &[u8], last: usize) -> (res: ScanStep)
        requires
            last <= buffer@.len(),
        ensures
            (res, final(self).odd()) == scan_step(
                old(self).odd(),
                old(self).may_end(),
                buffer@,
                last as nat,
            ),
            final(self).may_end() == old(self).may_end(),
    {
        let line = vstd::slice::slice_subrange(buffer, last, buffer.len());
        assert(line@ =~= buffer@.skip(last as int));
        if line.len() == 0 {
            if self.may_end {
                return ScanStep::End;
            } else {
                return ScanStep::Record(buffer.len());
            }
        }
        let quotes = count_quotes(line);
        self.odd = self.odd != (quotes % 2 == 1);
        if self.odd {
            ScanStep::ReadMore
        } else {
            ScanStep::Record(content_length(buffer))
        }
    }
}

/// The parity of the quotes in `data[start..next]` follows from that in
/// `data[start..cur]` and in the line `data[cur..next]`.
pub proof fn lemma_quote_parity(data: Seq<u8>, start: int, cur: int, next: int)
    requires
        0 <= start <= cur <= next <= data.len(),
    ensures
        (count_byte(data.subrange(start, next), QUOTE) % 2 == 1) == ((count_byte(
            data.subrange(start, cur),
            QUOTE,
        ) % 2 == 1) != (count_byte(data.subrange(cur, next), QUOTE) % 2 == 1)),
{
    assert(data.subrange(start, next) =~= data.subrange(start, cur) + data.subrange(cur, next));
    lemma_count_byte_concat(data.subrange(start, cur), data.subrange(cur, next), QUOTE);
}

/// Reads one CSV record from `reader` into `buf`; does not fail if the
/// record is malformed.
///
/// Lines are read until the quotes read so far balance, or the input ends;
/// a record whose quotes balance loses its final `\n` or `\r\n`. The bytes
/// are appended to `buf`, and the number of bytes read is returned.
///
/// Use the returned [Record] struct to determine if the record, i.e. any
/// of its fields, is malformed.
pub fn read_record(reader: &mut ByteReader, buf: &mut Vec<u8>) -> (res: std::io::Result<usize>)
    ensures
        ({
            let data = old(reader).data();
            let start = old(reader).pos();
            let (end, balanced) = record_end(data, start, start);
            let read = old(buf)@ + data.subrange(start as int, end as int);
            &&& final(reader).data() == data
            &&& final(reader).pos() == end
            &&& res matches Ok(n) && n == end - start
            &&& final(buf)@ == if balanced {
                strip_line_end(read)
            } else {
                read
            }
        }),
{
    let ghost data = reader.data();
    let ghost start = reader.pos();
    proof {
        use_type_invariant(&*reader);
    }
    let mut scan = RecordScan::new(false);
    let mut num_read: usize = 0;
    loop
        invariant
            reader.data() == data,
            start <= reader.pos() <= data.len(),
            num_read == reader.pos() - start,
            buf@ == old(buf)@ + data.subrange(start as int, reader.pos() as int),
            scan.odd() == (count_byte(data.subrange(start as int, reader.pos() as int), QUOTE) % 2
                == 1),
            !scan.may_end(),
            record_end(data, start, start) == record_end(data, start, reader.pos()),
            start == old(reader).pos(),
            data == old(reader).data(),
        decreases data.len() - reader.pos(),
    {
        let ghost cur = reader.pos();
        let last_size = buf.len();
        let chunk_size = match reader.read_until(NEWLINE, buf) {
            Ok(n) => n,
            Err(e) => {
                return Err(e);
            },
        };
        proof {
            lemma_until_end_bounds(data, NEWLINE, cur);
            use_type_invariant(&*reader);
            lemma_quote_parity(data, start as int, cur as int, reader.pos() as int);
            assert(buf@.skip(last_size as int) =~= data.subrange(cur as int, reader.pos() as int));
        }
        num_read = num_read + chunk_size;
        match scan.feed(buf.as_slice(), last_size) {
            ScanStep::Record(keep) => {
                buf.truncate(keep);
                assert(buf@ =~= if chunk_size == 0 {
                    old(buf)@ + data.subrange(start as int, reader.pos() as int)
                } else {
                    strip_line_end(old(buf)@ + data.subrange(start as int, reader.pos() as int))
                });
                return Ok(num_read);
            },
            _ => {},
        }
    }
}

/// A CSV record: the bytes of one record, without its line end.
#[derive(Clone)]
pub struct Record<'a>(&'a [u8]);

impl<'a> View for Record<'a> {
    type V = Seq<u8>;

    closed spec fn view(&self) -> Seq<u8> {
        self.0@
    }
}

/// The models of a sequence of fields.
pub open spec fn fields_view(v: Seq<Field>) -> Seq<FieldModel> {
    v.map_values(|f: Field| f@)
}

/// The error kind of a malformed field.
pub open spec fn fault_kind(fault: ParseFault) -> ErrorKind {
    match fault {
        ParseFault::UnclosedQuote => ErrorKind::UnclosedQuote,
        ParseFault::InvalidByte(c) => ErrorKind::InvalidByte(c),
        ParseFault::QuoteInUnescapedField => ErrorKind::DoubleQuoteInUnescapedField,
    }
}

fn fault_error(fault: ParseFault) -> (res: Error)
    ensures
        res.is_plain(fault_kind(fault)),
{
    match fault {
        ParseFault::UnclosedQuote => Error::new(ErrorKind::UnclosedQuote),
        ParseFault::InvalidByte(c) => Error::new(ErrorKind::InvalidByte(c)),
        ParseFault::QuoteInUnescapedField => Error::new(ErrorKind::DoubleQuoteInUnescapedField),
    }
}

/// What `Record::read` gives for a record with these bytes, asked for
/// `expected` fields: the fields it adds to the buffer, and its error if
/// any (as the kind and the field number).
pub open spec fn read_outcome(record: Seq<u8>, expected: Option<usize>) -> (
    Seq<FieldModel>,
    Option<(ErrorKind, Option<usize>)>,
) {
    let (fields, fault) = parse_fields(record);
    let items = fields.len() + if fault is Some {
        1nat
    } else {
        0nat
    };
    let want = match expected {
        Some(n) => n as nat,
        None => 0,
    };
    if expected is Some && items > want {
        (
            fields.take(want as int),
            Some((ErrorKind::FieldCount { want: want as usize, got: want as usize }, None)),
        )
    } else if fault is Some {
        (fields, Some((fault_kind(fault->0), Some(fields.len() as usize))))
    } else if expected is Some && fields.len() < want {
        (
            fields,
            Some((ErrorKind::FieldCount { want: want as usize, got: fields.len() as usize }, None)),
        )
    } else {
        (fields, None)
    }
}

/// Fewer fields than bytes, plus one: a record shorter than `usize::MAX`
/// bytes has few enough fields for `Record::read`.
pub proof fn lemma_parse_fields_len(rest: Seq<u8>)
    ensures
        parse_fields(rest).0.len() <= rest.len() + 1,
    decreases rest.len(),
{
    lemma_next_field_shrinks(rest);
    match next_field(rest) {
        FieldStep::Field(f, Some(r)) => {
            lemma_parse_fields_len(r);
        },
        _ => {},
    }
}

impl<'a> Record<'a> {
    pub fn new(record: &'a [u8]) -> (res: Self)
        ensures
            res@ == record@,
    {
        Record(record)
    }

    /// Reads `expected_fields` fields from this [Record] into `buf`.
    ///
    /// If `expected_fields` is `None`, any number of fields
    /// is accepted. Otherwise, this errors in the event of
    /// an incorrect number of fields being in this [Record].
    ///
    /// Halts on the first field that errors. Without an expected count,
    /// the number of fields read must fit in a `usize`.
    pub fn read(&self, buf: &mut Vec<Field<'a>>, expected_fields: Option<usize>) -> (res: Result<
        (),
        Error,
    >)
        requires
            expected_fields is Some || parse_fields(self@).0.len() <= usize::MAX,
        ensures
            ({
                let (fields, err) = read_outcome(self@, expected_fields);
                &&& fields_view(final(buf)@) == fields_view(old(buf)@) + fields
                &&& match err {
                    None => res is Ok,
                    Some((kind, field)) => res matches Err(e) && e.kind == kind && e.field == field
                        && e.record is None && e.field_name is None,
                }
            }),
    {
        let mut iter = self.iter();
        let mut i: usize = 0;
        let ghost all = parse_fields(self@);
        let ghost mut done: Seq<FieldModel> = seq![];
        proof {
            assert(done + all.0 =~= all.0);
        }
        loop
            invariant
                all == parse_fields(self@),
                expected_fields is Some || all.0.len() <= usize::MAX,
                i == done.len(),
                fields_view(buf@) == fields_view(old(buf)@) + done,
                iter.is_next_spec() ==> all.0 == done + parse_fields(iter.rest_spec()).0 && all.1
                    == parse_fields(iter.rest_spec()).1,
                !iter.is_next_spec() ==> all.0 == done && all.1 is None,
                expected_fields matches Some(n) ==> i <= n,
            ensures
                !iter.is_next_spec(),
                all.0 == done && all.1 is None,
                i == done.len(),
                fields_view(buf@) == fields_view(old(buf)@) + done,
                expected_fields matches Some(n) ==> i <= n,
            decreases iter.rest_spec().len() + if iter.is_next_spec() {
                1int
            } else {
                0int
            },
        {
            let ghost rest = iter.rest_spec();
            proof {
                lemma_parse_fields_step(rest);
            }
            let item = iter.next();
            match item {
                None => {
                    break ;
                },
                Some(r) => {
                    if let Some(n) = expected_fields {
                        if i >= n {
                            assert(all.0.take(n as int) =~= done);
                            return Err(Error::new(ErrorKind::FieldCount { want: n, got: i }));
                        }
                    }
                    match r {
                        Err(e) => {
                            assert(all.0 =~= done);
                            return Err(e.field_num(i));
                        },
                        Ok(f) => {
                            let ghost before = fields_view(buf@);
                            buf.push(f);
                            assert(fields_view(buf@) =~= before.push(f@));
                            proof {
                                let ghost old_done = done;
                                done = done.push(f@);
                                assert(fields_view(buf@) =~= fields_view(old(buf)@) + done);
                                if iter.is_next_spec() {
                                    assert(all.0 =~= done + parse_fields(iter.rest_spec()).0);
                                } else {
                                    assert(all.0 =~= done);
                                }
                            }
                            i = i + 1;
                        },
                    }
                },
            }
        }
        if let Some(n) = expected_fields {
            if n > i {
                return Err(Error::new(ErrorKind::FieldCount { want: n, got: i }));
            }
        }
        Ok(())
    }

    pub fn iter(&self) -> (res: RecordIter<'a>)
        ensures
            res.rest_spec() == self@,
            res.is_next_spec(),
    {
        RecordIter { rest: self.0, is_next: true }
    }
}

/// Iterates over the fields in a Record.
pub struct RecordIter<'a> {
    rest: &'a [u8],
    is_next: bool,
}

impl<'a> RecordIter<'a> {
    /// The bytes not yet read.
    pub closed spec fn rest_spec(&self) -> Seq<u8> {
        self.rest@
    }

    /// Whether a field may still follow.
    pub closed spec fn is_next_spec(&self) -> bool {
        self.is_next
    }

    /// Reads the next field. After the last field it gives `None`. A
    /// malformed field gives an error; the iterator then stays where it
    /// is, except after a quote in a last unquoted field, where it ends.
    pub fn next(&mut self) -> (res: Option<Result<Field<'a>, Error>>)
        ensures
            !old(self).is_next_spec() ==> res is None && final(self).rest_spec() == old(
                self,
            ).rest_spec() && !final(self).is_next_spec(),
            old(self).is_next_spec() ==> match next_field(old(self).rest_spec()) {
                FieldStep::Field(f, None) => res matches Some(Ok(field)) && field@ == f
                    && !final(self).is_next_spec() && final(self).rest_spec() == old(
                    self,
                ).rest_spec(),
                FieldStep::Field(f, Some(r)) => res matches Some(Ok(field)) && field@ == f
                    && final(self).is_next_spec() && final(self).rest_spec() == r,
                FieldStep::Fail(fault, stop) => res matches Some(Err(e)) && e.is_plain(
                    fault_kind(fault),
                ) && final(self).is_next_spec() == !stop && final(self).rest_spec() == old(
                    self,
                ).rest_spec(),
            },
    {
        if !self.is_next {
            return None;
        }
        proof {
            lemma_next_field_well_formed(self.rest@);
        }
        match scan_field(self.rest, false) {
            FieldScan::Field(f, None) => {
                self.is_next = false;
                Some(Ok(Field(f)))
            },
            FieldScan::Field(f, Some(r)) => {
                self.rest = r;
                Some(Ok(Field(f)))
            },
            FieldScan::Fail(fault, stop) => {
                if stop {
                    self.is_next = false;
                }
                Some(Err(fault_error(fault)))
            },
        }
    }
}

/// One field of a record.
#[derive(Debug)]
pub struct Field<'a>(FieldData<'a>);

impl<'a> View for Field<'a> {
    type V = FieldModel;

    closed spec fn view(&self) -> FieldModel {
        self.0@
    }
}

impl<'a> Field<'a> {
    /// A field is as the grammar reads it.
    #[verifier::type_invariant]
    spec fn well_formed(&self) -> bool {
        field_well_formed(self.0@)
    }
}

impl<'a> Field<'a> {
    /// Compares the field with `other`. An unquoted field must equal it. The
    /// pieces of a quoted field are matched one after another from the start
    /// of `other`, so the answer is whether the field's bytes start `other`.
    pub fn contents_eq(&self, other: &[u8]) -> (res: bool)
        requires
            contents_eq_defined(self@, other@),
        ensures
            res == contents_eq_spec(self@, other@),
    {
        self.0.contents_eq(other)
    }

    /// Whether `contents_eq` may be called with `other`: not when a piece of
    /// a quoted field reaches past the end of `other` before any piece
    /// differed.
    pub fn contents_eq_in_bounds(&self, other: &[u8]) -> (res: bool)
        ensures
            res == contents_eq_defined(self@, other@),
    {
        self.0.contents_eq_in_bounds(other)
    }

    /// The bytes the field stands for.
    pub fn to_bytes(&self) -> (res: Vec<u8>)
        ensures
            res@ == self@.content(),
    {
        let mut buffer = Vec::new();
        self.0.append_content(&mut buffer);
        assert(buffer@ =~= self@.content());
        buffer
    }

    /// Writes the field as CSV: an unquoted field as it is, a quoted one
    /// quoted, with its quotes doubled.
    pub fn write_encoded(&self, writer: &mut Vec<u8>) -> (res: Result<(), std::io::Error>)
        ensures
            res is Ok,
            final(writer)@ == old(writer)@ + encoded(self@),
    {
        self.0.append_encoded(writer);
        Ok(())
    }

    /// Writes the bytes the field stands for.
    pub fn write_to(&self, writer: &mut Vec<u8>) -> (res: Result<(), std::io::Error>)
        ensures
            res is Ok,
            final(writer)@ == old(writer)@ + self@.content(),
    {
        self.0.append_content(writer);
        Ok(())
    }

    /// The text of the field. Makes a lossy conversion in the event that
    /// the underlying data are invalid utf8; valid utf8 gives exactly the
    /// text that the field's bytes (`to_bytes`) encode.
    pub fn to_string(&self) -> (res: String)
        ensures
            res@ == lossy_text(self@),
            valid_utf8(self@.content()) ==> res@ == decode_utf8(self@.content()),
    {
        proof {
            use_type_invariant(self);
        }
        self.0.to_text()
    }
}

} // verus!
