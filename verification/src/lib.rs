//! Tools for CSV data: reading records and fields, writing quoted fields,
//! and lexing command-line arguments.
pub mod argparse;
pub mod common;
pub mod csv;
pub mod text;

use vstd::prelude::*;
use vstd::utf8::{decode_utf8, valid_utf8};

use crate::csv::grammar::{
    count_byte, field_well_formed, file_step, lemma_next_field_well_formed, lemma_parse_fields_step, lemma_until_end_bounds, lossy_text,
    next_field, parse_fields, scan_field, until_end_exec, FieldData, FieldModel, FieldScan,
    FieldStep, FileStep, ParseFault, NEWLINE, QUOTE,
};
use crate::csv::read::{lemma_quote_parity, RecordScan, ScanStep};
use crate::text::{hex_upper, push_hex_upper, push_str};
use vstd::string::StringExecFns;

verus! {

broadcast use vstd::seq_lib::group_seq_properties;

/// A CSV file, read record by record from its bytes.
pub struct File<'a> {
    data: &'a [u8],
    pos: usize,
    first: bool,
}

impl<'a> File<'a> {
    #[verifier::type_invariant]
    spec fn inv(&self) -> bool {
        self.pos <= self.data@.len()
    }

    /// All the bytes of the file.
    pub closed spec fn data(&self) -> Seq<u8> {
        self.data@
    }

    /// How many bytes have been read.
    pub closed spec fn pos(&self) -> nat {
        self.pos as nat
    }

    /// Whether no record has been read yet.
    pub closed spec fn first(&self) -> bool {
        self.first
    }

    pub fn new(reader: &'a [u8]) -> (res: Self)
        ensures
            res.data() == reader@,
            res.pos() == 0,
            res.first(),
    {
        File { data: reader, pos: 0, first: true }
    }

    /// Reads the next record: lines are read until the quotes balance, and a
    /// balanced record loses its final `\n` or `\r\n`. At the end of the
    /// input the first read still gives a record; later ones give `None`.
    pub fn read(&mut self) -> (res: Result<Option<Record<'a>>, std::io::Error>)
        ensures
            final(self).data() == old(self).data(),
            !final(self).first(),
            match file_step(old(self).data(), old(self).pos(), old(self).pos(), old(self).first()) {
                FileStep::End(p) => res matches Ok(None) && final(self).pos() == p,
                FileStep::Record { start, end, next } => res matches Ok(Some(r)) && r@ == old(
                    self,
                ).data().subrange(start as int, end as int) && final(self).pos() == next,
            },
    {
        proof {
            use_type_invariant(&*self);
        }
        let first = self.first;
        self.first = false;
        let start = self.pos;
        let mut cur = start;
        let mut scan = RecordScan::new(!first);
        let ghost data = self.data@;
        loop
            invariant
                data == self.data@,
                data == old(self).data(),
                start == old(self).pos(),
                first == old(self).first(),
                !self.first,
                self.pos == start,
                start <= cur <= data.len(),
                scan.odd() == (count_byte(data.subrange(start as int, cur as int), QUOTE) % 2
                    == 1),
                cur > start ==> scan.odd(),
                scan.may_end() == !first,
                file_step(data, start as nat, start as nat, first) == file_step(
                    data,
                    start as nat,
                    cur as nat,
                    first,
                ),
            decreases data.len() - cur,
        {
            let next = until_end_exec(self.data, NEWLINE, cur);
            proof {
                lemma_until_end_bounds(data, NEWLINE, cur as nat);
                lemma_quote_parity(data, start as int, cur as int, next as int);
            }
            let buffer = vstd::slice::slice_subrange(self.data, start, next);
            assert(buffer@.skip(cur - start) =~= data.subrange(cur as int, next as int));
            proof {
                if cur == start {
                    assert(buffer@ =~= data.subrange(start as int, next as int));
                    assert(data.subrange(start as int, start as int).len() == 0);
                }
            }
            match scan.feed(buffer, cur - start) {
                ScanStep::End => {
                    self.pos = cur;
                    return Ok(None);
                },
                ScanStep::Record(keep) => {
                    let record = vstd::slice::slice_subrange(self.data, start, start + keep);
                    self.pos = next;
                    return Ok(Some(Record(record)));
                },
                ScanStep::ReadMore => {},
            }
            cur = next;
        }
    }
}

/// A CSV record: the bytes of one record, without its line end.
#[derive(Clone)]
pub struct Record<'a>(&'a [u8]);

impl<'a> View for Record<'a> {
    type V = Seq<u8>;

    closed spec fn view(&self) -> Seq<u8> {
        self.0@
    }
}

impl<'a> Record<'a> {
    pub fn iter(&self) -> (res: RecordIter<'a>)
        ensures
            res.rest_spec() == self@,
            res.is_next_spec(),
    {
        RecordIter { rest: self.0, is_next: true }
    }
}

/// The message of a malformed field.
pub open spec fn fault_message(fault: ParseFault) -> Seq<char> {
    match fault {
        ParseFault::UnclosedQuote => "unclosed double quote"@,
        ParseFault::InvalidByte(c) => "unexpected byte `0x"@ + hex_upper(c) + "`"@,
        ParseFault::QuoteInUnescapedField => "double quote in unescaped field"@,
    }
}

fn fault_text(fault: ParseFault) -> (res: String)
    ensures
        res@ == fault_message(fault),
{
    match fault {
        ParseFault::UnclosedQuote => String::from_str("unclosed double quote"),
        ParseFault::InvalidByte(c) => {
            let mut s = String::from_str("unexpected byte `0x");
            push_hex_upper(&mut s, c);
            push_str(&mut s, "`");
            s
        },
        ParseFault::QuoteInUnescapedField => String::from_str("double quote in unescaped field"),
    }
}

/// Iterates over the fields in a Record.
pub struct RecordIter<'a> {
    rest: &'a [u8],
    is_next: bool,
}

impl<'a> RecordIter<'a> {
    /// The bytes not yet read.
    pub closed spec fn rest_spec(&self) -> Seq<u8> {
        self.rest@
    }

    /// Whether a field may still follow.
    pub closed spec fn is_next_spec(&self) -> bool {
        self.is_next
    }

    /// Reads the next field. After the last field it gives `None`. A
    /// malformed field gives its message; the iterator then stays where it
    /// is, except after a quote in a last unquoted field, where it ends.
    /// Inside a quoted field, each quote found first has the rest of the
    /// field printed to standard output between single quotes.
    pub fn next(&mut self) -> (res: Option<Result<Field<'a>, String>>)
        ensures
            !old(self).is_next_spec() ==> res is None && final(self).rest_spec() == old(
                self,
            ).rest_spec() && !final(self).is_next_spec(),
            old(self).is_next_spec() ==> match next_field(old(self).rest_spec()) {
                FieldStep::Field(f, None) => res matches Some(Ok(field)) && field@ == f
                    && !final(self).is_next_spec() && final(self).rest_spec() == old(
                    self,
                ).rest_spec(),
                FieldStep::Field(f, Some(r)) => res matches Some(Ok(field)) && field@ == f
                    && final(self).is_next_spec() && final(self).rest_spec() == r,
                FieldStep::Fail(fault, stop) => res matches Some(Err(msg)) && msg@
                    == fault_message(fault) && final(self).is_next_spec() == !stop
                    && final(self).rest_spec() == old(self).rest_spec(),
            },
    {
        if !self.is_next {
            return None;
        }
        proof {
            lemma_next_field_well_formed(self.rest@);
        }
        match scan_field(self.rest, true) {
            FieldScan::Field(f, None) => {
                self.is_next = false;
                Some(Ok(Field(f)))
            },
            FieldScan::Field(f, Some(r)) => {
                self.rest = r;
                Some(Ok(Field(f)))
            },
            FieldScan::Fail(fault, stop) => {
                if stop {
                    self.is_next = false;
                }
                Some(Err(fault_text(fault)))
            },
        }
    }
}

/// One field of a record.
pub struct Field<'a>(FieldData<'a>);

impl<'a> View for Field<'a> {
    type V = FieldModel;

    closed spec fn view(&self) -> FieldModel {
        self.0@
    }
}

impl<'a> Field<'a> {
    /// A field is as the grammar reads it.
    #[verifier::type_invariant]
    spec fn well_formed(&self) -> bool {
        field_well_formed(self.0@)
    }
}

impl<'a> Field<'a> {
    /// The bytes the field stands for.
    pub fn to_bytes(&self) -> (res: Vec<u8>)
        ensures
            res@ == self@.content(),
    {
        let mut buffer = Vec::new();
        self.0.append_content(&mut buffer);
        assert(buffer@ =~= self@.content());
        buffer
    }

    /// Writes the bytes the field stands for.
    pub fn write_to(&self, writer: &mut Vec<u8>) -> (res: Result<(), std::io::Error>)
        ensures
            res is Ok,
            final(writer)@ == old(writer)@ + self@.content(),
    {
        self.0.append_content(writer);
        Ok(())
    }

    /// The text of the field. Makes a lossy conversion in the event that
    /// the underlying data are invalid utf8; valid utf8 gives exactly the
    /// text that the field's bytes (`to_bytes`) encode.
    pub fn to_string(&self) -> (res: String)
        ensures
            res@ == lossy_text(self@),
            valid_utf8(self@.content()) ==> res@ == decode_utf8(self@.content()),
    {
        proof {
            use_type_invariant(self);
        }
        self.0.to_text()
    }
}

/// The record that the next read of a file gives, as a range of its bytes.
pub open spec fn next_record_bytes(data: Seq<u8>, pos: nat, first: bool) -> Option<Seq<u8>> {
    match file_step(data, pos, pos, first) {
        FileStep::Record { start, end, next } => Some(data.subrange(start as int, end as int)),
        FileStep::End(_) => None,
    }
}

impl<'a> File<'a> {
    /// Reads the next record and gives the text of each of its fields.
    /// The next record must exist and hold no malformed field.
    pub fn read_to_vec(&mut self) -> (res: Vec<String>)
        requires
            next_record_bytes(old(self).data(), old(self).pos(), old(self).first()) matches Some(
                rec,
            ) && parse_fields(rec).1 is None,
        ensures
            ({
                let rec = next_record_bytes(old(self).data(), old(self).pos(), old(self).first())->0;
                &&& res@.map_values(|s: String| s@) == parse_fields(rec).0.map_values(
                    |f: FieldModel| lossy_text(f),
                )
                &&& final(self).data() == old(self).data()
                &&& !final(self).first()
                &&& final(self).pos() == file_step(
                    old(self).data(),
                    old(self).pos(),
                    old(self).pos(),
                    old(self).first(),
                )->next
            }),
    {
        let record = match self.read() {
            Ok(Some(r)) => r,
            _ => {
                assert(false);
                return Vec::new();
            },
        };
        let ghost all = parse_fields(record@).0;
        let mut iter = record.iter();
        let mut out: Vec<String> = Vec::new();
        let ghost mut done: Seq<FieldModel> = seq![];
        assert(done + all =~= all);
        loop
            invariant
                all == parse_fields(record@).0,
                parse_fields(record@).1 is None,
                out@.map_values(|s: String| s@) == done.map_values(|f: FieldModel| lossy_text(f)),
                iter.is_next_spec() ==> all == done + parse_fields(iter.rest_spec()).0
                    && parse_fields(iter.rest_spec()).1 is None,
                !iter.is_next_spec() ==> all == done,
            ensures
                all == done,
                out@.map_values(|s: String| s@) == done.map_values(|f: FieldModel| lossy_text(f)),
            decreases iter.rest_spec().len() + if iter.is_next_spec() {
                1int
            } else {
                0int
            },
        {
            let ghost rest = iter.rest_spec();
            proof {
                lemma_parse_fields_step(rest);
            }
            match iter.next() {
                None => {
                    break ;
                },
                Some(Ok(f)) => {
                    let t = f.to_string();
                    let ghost before = out@;
                    out.push(t);
                    proof {
                        let ghost od = done;
                        done = done.push(f@);
                        assert(out@.map_values(|s: String| s@) =~= before.map_values(
                            |s: String| s@,
                        ).push(t@));
                        assert(done.map_values(|f: FieldModel| lossy_text(f)) =~= od.map_values(
                            |f: FieldModel| lossy_text(f),
                        ).push(lossy_text(f@)));
                        if iter.is_next_spec() {
                            assert(all =~= done + parse_fields(iter.rest_spec()).0);
                        } else {
                            assert(all =~= done);
                        }
                    }
                },
                Some(Err(_)) => {
                    assert(false);
                    break ;
                },
            }
        }
        out
    }
}

} // verus!
