//! The byte-level grammar of a CSV record: how a record splits into fields,
//! how a quoted field is unescaped, and where a line of input ends.
//! The spec functions here are the model that every contract of the
//! readers is written against.
use vstd::prelude::*;
use vstd::string::StringExecFns;
use vstd::utf8::{
    decode_utf8, decode_utf8_split, is_char_boundary, is_char_boundary_iff_not_is_continuation_byte,
    is_char_boundary_start_end_of_seq, length_of_first_scalar, pop_first_scalar, valid_utf8,
    valid_utf8_split,
};

use crate::text::{from_utf8_lossy, print_line, push_str, utf8_lossy};

verus! {

broadcast use vstd::seq_lib::group_seq_properties;

/// `"`
pub const QUOTE: u8 = 0x22;

/// `,`
pub const COMMA: u8 = 0x2c;

/// `\n`
pub const NEWLINE: u8 = 0x0a;

/// `\r`
pub const CARRIAGE_RETURN: u8 = 0x0d;

/// The first index at or after `i` where `s` holds `b`, or `s.len()`
/// when there is none.
pub open spec fn index_from(s: Seq<u8>, b: u8, i: nat) -> nat
    decreases s.len() - i,
{
    if i >= s.len() {
        s.len()
    } else if s[i as int] == b {
        i
    } else {
        index_from(s, b, i + 1)
    }
}

/// The first index where `s` holds `b`, or `s.len()` when there is none.
pub open spec fn first_index(s: Seq<u8>, b: u8) -> nat {
    index_from(s, b, 0)
}

/// How many times `b` occurs in `s`.
pub open spec fn count_byte(s: Seq<u8>, b: u8) -> nat
    decreases s.len(),
{
    if s.len() == 0 {
        0
    } else {
        count_byte(s.drop_last(), b) + if s.last() == b {
            1nat
        } else {
            0nat
        }
    }
}

/// The model of a parsed field: either the bytes of an unquoted field, or
/// the pieces of a quoted field. Each piece of a quoted field but the last
/// ends with the one quote that an escaped `""` stands for.
pub enum FieldModel {
    Clean(Seq<u8>),
    Escaped(Seq<Seq<u8>>),
}

impl FieldModel {
    /// The bytes that the field stands for.
    pub open spec fn content(self) -> Seq<u8> {
        match self {
            FieldModel::Clean(s) => s,
            FieldModel::Escaped(parts) => parts.flatten(),
        }
    }
}

/// Why a field could not be read.
#[derive(Clone, Copy, Debug, PartialEq, Eq, Structural)]
pub enum ParseFault {
    /// A quoted field has no closing quote.
    UnclosedQuote,
    /// A closing quote is followed by this byte, which is neither `,` nor `"`.
    InvalidByte(u8),
    /// An unquoted field holds a quote.
    QuoteInUnescapedField,
}

/// The outcome of scanning the inside of a quoted field.
pub enum EscapedScan {
    /// No closing quote.
    Unclosed,
    /// A closing quote followed by this byte.
    Invalid(u8),
    /// The field ends the record.
    Last(Seq<Seq<u8>>),
    /// The field is followed by a comma and then these bytes.
    More(Seq<Seq<u8>>, Seq<u8>),
}

/// Puts `ps` in front of the pieces of a successful scan.
pub open spec fn prepend_parts(ps: Seq<Seq<u8>>, s: EscapedScan) -> EscapedScan {
    match s {
        EscapedScan::Last(p) => EscapedScan::Last(ps + p),
        EscapedScan::More(p, rest) => EscapedScan::More(ps + p, rest),
        other => other,
    }
}

/// Scans `r`, the bytes after the opening quote of a quoted field.
pub open spec fn scan_escaped(r: Seq<u8>) -> EscapedScan
    decreases r.len(),
{
    let q = first_index(r, QUOTE) as int;
    if q >= r.len() {
        EscapedScan::Unclosed
    } else if q + 1 == r.len() {
        EscapedScan::Last(seq![r.take(q)])
    } else if r[q + 1] == COMMA {
        EscapedScan::More(seq![r.take(q)], r.skip(q + 2))
    } else if r[q + 1] == QUOTE {
        prepend_parts(seq![r.take(q + 1)], scan_escaped(r.skip(q + 2)))
    } else {
        EscapedScan::Invalid(r[q + 1])
    }
}

/// One step of reading the fields of a record.
pub enum FieldStep {
    /// A field was read; the bytes after its comma follow, or `None`
    /// when the field ends the record.
    Field(FieldModel, Option<Seq<u8>>),
    /// The field is malformed. The flag tells whether reading stops
    /// there; when it does not, the same error comes again.
    Fail(ParseFault, bool),
}

/// Reads the first field of `rest`.
pub open spec fn next_field(rest: Seq<u8>) -> FieldStep {
    if rest.len() > 0 && rest[0] == QUOTE {
        match scan_escaped(rest.drop_first()) {
            EscapedScan::Unclosed => FieldStep::Fail(ParseFault::UnclosedQuote, false),
            EscapedScan::Invalid(c) => FieldStep::Fail(ParseFault::InvalidByte(c), false),
            EscapedScan::Last(ps) => FieldStep::Field(FieldModel::Escaped(ps), None),
            EscapedScan::More(ps, r) => FieldStep::Field(FieldModel::Escaped(ps), Some(r)),
        }
    } else {
        let cp = first_index(rest, COMMA);
        let qp = first_index(rest, QUOTE);
        if cp >= rest.len() {
            if qp >= rest.len() {
                FieldStep::Field(FieldModel::Clean(rest), None)
            } else {
                FieldStep::Fail(ParseFault::QuoteInUnescapedField, true)
            }
        } else if qp < cp {
            FieldStep::Fail(ParseFault::QuoteInUnescapedField, false)
        } else {
            FieldStep::Field(FieldModel::Clean(rest.take(cp as int)), Some(rest.skip(cp as int + 1)))
        }
    }
}

/// The fields of a record up to the first malformed one, and the fault of
/// that one if there is one.
pub open spec fn parse_fields(rest: Seq<u8>) -> (Seq<FieldModel>, Option<ParseFault>)
    decreases rest.len(),
{
    match next_field(rest) {
        FieldStep::Fail(k, _) => (seq![], Some(k)),
        FieldStep::Field(f, None) => (seq![f], None),
        FieldStep::Field(f, Some(r)) => if r.len() < rest.len() {
            let p = parse_fields(r);
            (seq![f] + p.0, p.1)
        } else {
            (seq![f], None)
        },
    }
}

// ------------------------------------------------------------------------
// Lemmas about the grammar
// ------------------------------------------------------------------------

pub proof fn lemma_index_from_bounds(s: Seq<u8>, b: u8, i: nat)
    requires
        i <= s.len(),
    ensures
        i <= index_from(s, b, i) <= s.len(),
        index_from(s, b, i) < s.len() ==> s[index_from(s, b, i) as int] == b,
        forall|j: int| i <= j < index_from(s, b, i) ==> s[j] != b,
    decreases s.len() - i,
{
    if i < s.len() && s[i as int] != b {
        lemma_index_from_bounds(s, b, i + 1);
    }
}

/// `index_from` is the first occurrence: any index before a match with no
/// match in between is the answer.
pub proof fn lemma_index_from_is(s: Seq<u8>, b: u8, i: nat, k: nat)
    requires
        i <= k <= s.len(),
        k < s.len() ==> s[k as int] == b,
        forall|j: int| i <= j < k ==> s[j] != b,
    ensures
        index_from(s, b, i) == k,
    decreases k - i,
{
    if i < k {
        lemma_index_from_is(s, b, i + 1, k);
    }
}

/// The first index of `b` in `a + c`, where `a` does not hold `b`.
pub proof fn lemma_first_index_concat(a: Seq<u8>, c: Seq<u8>, b: u8)
    requires
        forall|j: int| 0 <= j < a.len() ==> a[j] != b,
    ensures
        first_index(a + c, b) == a.len() + first_index(c, b),
{
    lemma_index_from_bounds(c, b, 0);
    let k = a.len() + first_index(c, b);
    assert forall|j: int| 0 <= j < k implies (a + c)[j] != b by {
        if j >= a.len() {
            assert((a + c)[j] == c[j - a.len()]);
        }
    }
    if k < (a + c).len() {
        assert((a + c)[k as int] == c[first_index(c, b) as int]);
    }
    lemma_index_from_is(a + c, b, 0, k);
}

pub proof fn lemma_count_byte_push(s: Seq<u8>, x: u8, b: u8)
    ensures
        count_byte(s.push(x), b) == count_byte(s, b) + if x == b {
            1nat
        } else {
            0nat
        },
{
    assert(s.push(x).drop_last() =~= s);
}

pub proof fn lemma_count_byte_bound(s: Seq<u8>, b: u8)
    ensures
        count_byte(s, b) <= s.len(),
    decreases s.len(),
{
    if s.len() > 0 {
        lemma_count_byte_bound(s.drop_last(), b);
    }
}

pub proof fn lemma_prepend_parts_assoc(a: Seq<Seq<u8>>, b: Seq<Seq<u8>>, s: EscapedScan)
    ensures
        prepend_parts(a, prepend_parts(b, s)) == prepend_parts(a + b, s),
{
    match s {
        EscapedScan::Last(p) => {
            assert(a + (b + p) =~= (a + b) + p);
        },
        EscapedScan::More(p, rest) => {
            assert(a + (b + p) =~= (a + b) + p);
        },
        _ => {},
    }
}

pub proof fn lemma_prepend_parts_empty(s: EscapedScan)
    ensures
        prepend_parts(seq![], s) == s,
{
    match s {
        EscapedScan::Last(p) => {
            assert(Seq::<Seq<u8>>::empty() + p =~= p);
        },
        EscapedScan::More(p, rest) => {
            assert(Seq::<Seq<u8>>::empty() + p =~= p);
        },
        _ => {},
    }
}

/// What follows a quoted field is shorter than the scanned bytes.
pub proof fn lemma_scan_escaped_shrinks(r: Seq<u8>)
    ensures
        scan_escaped(r) matches EscapedScan::More(_, rest) ==> rest.len() < r.len(),
    decreases r.len(),
{
    let q = first_index(r, QUOTE) as int;
    lemma_index_from_bounds(r, QUOTE, 0);
    if q < r.len() && q + 1 < r.len() && r[q + 1] != COMMA && r[q + 1] == QUOTE {
        lemma_scan_escaped_shrinks(r.skip(q + 2));
    }
}

/// Each piece of a quoted field but the last is not empty and ends with
/// the one quote that a doubled quote stands for.
pub open spec fn pieces_well_formed(ps: Seq<Seq<u8>>) -> bool {
    forall|i: int| 0 <= i < ps.len() - 1 ==> #[trigger] ps[i].len() > 0 && ps[i].last() == QUOTE
}

/// A field as the grammar reads it: a quoted field's pieces are well formed.
pub open spec fn field_well_formed(f: FieldModel) -> bool {
    match f {
        FieldModel::Clean(_) => true,
        FieldModel::Escaped(ps) => pieces_well_formed(ps),
    }
}

/// The pieces of a quoted field are well formed.
pub proof fn lemma_scan_escaped_well_formed(r: Seq<u8>)
    ensures
        scan_escaped(r) matches EscapedScan::Last(ps) ==> pieces_well_formed(ps),
        scan_escaped(r) matches EscapedScan::More(ps, _) ==> pieces_well_formed(ps),
    decreases r.len(),
{
    let q = first_index(r, QUOTE) as int;
    lemma_index_from_bounds(r, QUOTE, 0);
    if q < r.len() && q + 1 < r.len() && r[q + 1] != COMMA && r[q + 1] == QUOTE {
        let head: Seq<Seq<u8>> = seq![r.take(q + 1)];
        lemma_scan_escaped_well_formed(r.skip(q + 2));
        match scan_escaped(r.skip(q + 2)) {
            EscapedScan::Last(p) => {
                assert forall|i: int| 0 <= i < (head + p).len() - 1 implies #[trigger] (head
                    + p)[i].len() > 0 && (head + p)[i].last() == QUOTE by {
                    if i > 0 {
                        assert((head + p)[i] == p[i - 1]);
                    }
                }
            },
            EscapedScan::More(p, _) => {
                assert forall|i: int| 0 <= i < (head + p).len() - 1 implies #[trigger] (head
                    + p)[i].len() > 0 && (head + p)[i].last() == QUOTE by {
                    if i > 0 {
                        assert((head + p)[i] == p[i - 1]);
                    }
                }
            },
            _ => {},
        }
    }
}

/// Every field the grammar reads is well formed.
pub proof fn lemma_next_field_well_formed(rest: Seq<u8>)
    ensures
        next_field(rest) matches FieldStep::Field(f, _) ==> field_well_formed(f),
{
    if rest.len() > 0 {
        lemma_scan_escaped_well_formed(rest.drop_first());
    }
}

/// What follows a field is shorter than the bytes it was read from.
pub proof fn lemma_next_field_shrinks(rest: Seq<u8>)
    ensures
        next_field(rest) matches FieldStep::Field(_, Some(r)) ==> r.len() < rest.len(),
{
    lemma_index_from_bounds(rest, COMMA, 0);
    if rest.len() > 0 && rest[0] == QUOTE {
        lemma_scan_escaped_shrinks(rest.drop_first());
    }
}

/// One step of `parse_fields`.
pub proof fn lemma_parse_fields_step(rest: Seq<u8>)
    ensures
        next_field(rest) matches FieldStep::Field(f, None) ==> parse_fields(rest) == (
            seq![f],
            None::<ParseFault>,
        ),
        next_field(rest) matches FieldStep::Field(f, Some(r)) ==> r.len() < rest.len()
            && parse_fields(rest) == (seq![f] + parse_fields(r).0, parse_fields(r).1),
        next_field(rest) matches FieldStep::Fail(k, _) ==> parse_fields(rest) == (
            Seq::<FieldModel>::empty(),
            Some(k),
        ),
{
    lemma_next_field_shrinks(rest);
}

pub proof fn lemma_count_byte_concat(a: Seq<u8>, c: Seq<u8>, b: u8)
    ensures
        count_byte(a + c, b) == count_byte(a, b) + count_byte(c, b),
    decreases c.len(),
{
    if c.len() == 0 {
        assert(a + c =~= a);
    } else {
        lemma_count_byte_concat(a, c.drop_last(), b);
        assert((a + c).drop_last() =~= a + c.drop_last());
    }
}

// ------------------------------------------------------------------------
// Lines and records of input
// ------------------------------------------------------------------------

/// Where a read up to and including the next `b` from index `i` stops:
/// just after that `b`, or at the end of `data`.
pub open spec fn until_end(data: Seq<u8>, b: u8, i: nat) -> nat {
    let k = index_from(data, b, i);
    if k < data.len() {
        k + 1
    } else {
        data.len()
    }
}

/// Where the line that starts at `i` ends, its newline included.
pub open spec fn line_end(data: Seq<u8>, i: nat) -> nat {
    until_end(data, NEWLINE, i)
}

/// The length of `s` without one trailing `\n` or `\r\n`.
pub open spec fn content_len(s: Seq<u8>) -> nat {
    if s.len() > 0 && s.last() == NEWLINE {
        if s.len() > 1 && s[s.len() - 2] == CARRIAGE_RETURN {
            (s.len() - 2) as nat
        } else {
            (s.len() - 1) as nat
        }
    } else {
        s.len()
    }
}

/// `s` without one trailing `\n` or `\r\n`.
pub open spec fn strip_line_end(s: Seq<u8>) -> Seq<u8> {
    s.take(content_len(s) as int)
}

/// Whether `s` holds an even number of quotes, so that no quoted field is
/// left open.
pub open spec fn quotes_balanced(s: Seq<u8>) -> bool {
    count_byte(s, QUOTE) % 2 == 0
}

/// How `read_record` reads a record that starts at `start` and has been read
/// up to `cur`: line by line until the quotes read balance or the input
/// ends. Gives where it stops, and whether the quotes balanced.
pub open spec fn record_end(data: Seq<u8>, start: nat, cur: nat) -> (nat, bool)
    decreases data.len() - cur,
{
    let next = line_end(data, cur);
    if next <= cur {
        (cur, false)
    } else if quotes_balanced(data.subrange(start as int, next as int)) {
        (next, true)
    } else {
        record_end(data, start, next)
    }
}

/// The outcome of `File::read`.
pub enum FileStep {
    /// No record; the reader stops at this index.
    End(nat),
    /// The record `data[start..end]`; the reader stops at `next`.
    Record { start: nat, end: nat, next: nat },
}

/// How `File::read` reads the record that starts at `start`, having read up
/// to `cur`. Only the first read of a file yields a record at the end of the
/// input; a later one yields none there, dropping an unbalanced tail.
pub open spec fn file_step(data: Seq<u8>, start: nat, cur: nat, first: bool) -> FileStep
    decreases data.len() - cur,
{
    let next = line_end(data, cur);
    let read = data.subrange(start as int, next as int);
    if !first && next <= cur {
        FileStep::End(cur)
    } else if quotes_balanced(read) {
        FileStep::Record { start, end: start + content_len(read), next }
    } else if next <= cur {
        FileStep::Record { start, end: next, next }
    } else {
        file_step(data, start, next, first)
    }
}

pub proof fn lemma_until_end_bounds(data: Seq<u8>, b: u8, i: nat)
    requires
        i <= data.len(),
    ensures
        i <= until_end(data, b, i) <= data.len(),
        until_end(data, b, i) == i <==> i == data.len(),
        forall|j: int| i <= j < until_end(data, b, i) - 1 ==> data[j] != b,
        until_end(data, b, i) < data.len() ==> data[until_end(data, b, i) - 1] == b,
{
    lemma_index_from_bounds(data, b, i);
}

// ------------------------------------------------------------------------
// Executable scanning
// ------------------------------------------------------------------------

/// The first index at or after `from` where `s` holds `b`, or `s.len()`.
pub fn find_byte(s: &[u8], b: u8, from: usize) -> (res: usize)
    requires
        from <= s@.len(),
    ensures
        res == index_from(s@, b, from as nat),
{
    let mut i = from;
    while i < s.len() && s[i] != b
        invariant
            from <= i <= s@.len(),
            index_from(s@, b, from as nat) == index_from(s@, b, i as nat),
        decreases s@.len() - i,
    {
        i = i + 1;
    }
    i
}

/// The length of `s` without one trailing `\n` or `\r\n`.
pub fn content_length(s: &[u8]) -> (res: usize)
    ensures
        res == content_len(s@),
{
    let n = s.len();
    if n > 0 && s[n - 1] == NEWLINE {
        if n > 1 && s[n - 2] == CARRIAGE_RETURN {
            n - 2
        } else {
            n - 1
        }
    } else {
        n
    }
}

/// Where a read up to and including the next `b` from `i` stops.
pub fn until_end_exec(data: &[u8], b: u8, i: usize) -> (res: usize)
    requires
        i <= data@.len(),
    ensures
        res == until_end(data@, b, i as nat),
{
    let k = find_byte(data, b, i);
    proof {
        lemma_index_from_bounds(data@, b, i as nat);
    }
    if k < data.len() {
        k + 1
    } else {
        data.len()
    }
}

/// How many quotes `s` holds.
pub fn count_quotes(s: &[u8]) -> (res: usize)
    ensures
        res == count_byte(s@, QUOTE),
{
    let mut n: usize = 0;
    let mut i: usize = 0;
    while i < s.len()
        invariant
            i <= s@.len(),
            n == count_byte(s@.take(i as int), QUOTE),
            n <= i,
        decreases s@.len() - i,
    {
        proof {
            lemma_count_byte_push(s@.take(i as int), s@[i as int], QUOTE);
            assert(s@.take(i + 1) =~= s@.take(i as int).push(s@[i as int]));
        }
        if s[i] == QUOTE {
            n = n + 1;
        }
        i = i + 1;
    }
    assert(s@.take(i as int) =~= s@);
    n
}

/// The bytes of a field as the reader found them: borrowed whole from an
/// unquoted field, or in pieces from a quoted one.
#[derive(Debug)]
pub enum FieldData<'a> {
    Clean(&'a [u8]),
    Escaped(Vec<&'a [u8]>),
}

/// The byte strings that a vector of slices holds.
pub open spec fn slices_view(v: Seq<&[u8]>) -> Seq<Seq<u8>> {
    v.map_values(|p: &[u8]| p@)
}

impl<'a> View for FieldData<'a> {
    type V = FieldModel;

    open spec fn view(&self) -> FieldModel {
        match self {
            FieldData::Clean(s) => FieldModel::Clean(s@),
            FieldData::Escaped(parts) => FieldModel::Escaped(slices_view(parts@)),
        }
    }
}

/// The executable result of reading one field.
pub enum FieldScan<'a> {
    Field(FieldData<'a>, Option<&'a [u8]>),
    Fail(ParseFault, bool),
}

impl<'a> View for FieldScan<'a> {
    type V = FieldStep;

    open spec fn view(&self) -> FieldStep {
        match self {
            FieldScan::Field(f, None) => FieldStep::Field(f@, None),
            FieldScan::Field(f, Some(r)) => FieldStep::Field(f@, Some(r@)),
            FieldScan::Fail(k, stop) => FieldStep::Fail(*k, *stop),
        }
    }
}

/// Reads the pieces of a quoted field; `rest` starts with its opening quote.
fn scan_quoted<'a>(rest: &'a [u8], echo: bool) -> (res: FieldScan<'a>)
    requires
        rest@.len() > 0,
        rest@[0] == QUOTE,
    ensures
        res@ == next_field(rest@),
{
    let mut parts: Vec<&'a [u8]> = Vec::new();
    let mut r = vstd::slice::slice_subrange(rest, 1, rest.len());
    let ghost r0 = r@;
    assert(r0 =~= rest@.drop_first());
    proof {
        lemma_prepend_parts_empty(scan_escaped(r0));
        assert(slices_view(parts@) =~= Seq::<Seq<u8>>::empty());
    }
    loop
        invariant
            scan_escaped(r0) == prepend_parts(slices_view(parts@), scan_escaped(r@)),
            r0 == rest@.drop_first(),
            rest@.len() > 0,
            rest@[0] == QUOTE,
        decreases r@.len(),
    {
        let q = find_byte(r, QUOTE, 0);
        proof {
            lemma_index_from_bounds(r@, QUOTE, 0);
        }
        if q >= r.len() {
            return FieldScan::Fail(ParseFault::UnclosedQuote, false);
        }
        if echo {
            echo_quoted_rest(r);
        }
        if q + 1 == r.len() {
            let piece = vstd::slice::slice_subrange(r, 0, q);
            let ghost before = slices_view(parts@);
            parts.push(piece);
            assert(slices_view(parts@) =~= before + seq![r@.take(q as int)]);
            return FieldScan::Field(FieldData::Escaped(parts), None);
        }
        let c = r[q + 1];
        if c == COMMA {
            let piece = vstd::slice::slice_subrange(r, 0, q);
            let next = vstd::slice::slice_subrange(r, q + 2, r.len());
            let ghost before = slices_view(parts@);
            parts.push(piece);
            assert(slices_view(parts@) =~= before + seq![r@.take(q as int)]);
            assert(next@ =~= r@.skip(q + 2));
            return FieldScan::Field(FieldData::Escaped(parts), Some(next));
        } else if c == QUOTE {
            let piece = vstd::slice::slice_subrange(r, 0, q + 1);
            let next = vstd::slice::slice_subrange(r, q + 2, r.len());
            let ghost before = slices_view(parts@);
            let ghost old_r = r@;
            parts.push(piece);
            assert(slices_view(parts@) =~= before + seq![old_r.take(q + 1)]);
            assert(next@ =~= old_r.skip(q + 2));
            proof {
                lemma_prepend_parts_assoc(before, seq![old_r.take(q + 1)], scan_escaped(next@));
            }
            r = next;
        } else {
            return FieldScan::Fail(ParseFault::InvalidByte(c), false);
        }
    }
}

/// Prints the rest of a quoted field, from the byte after the opening quote
/// or after the last doubled quote, between single quotes on a line of its
/// own.
fn echo_quoted_rest(rest: &[u8]) {
    let mut line = String::new();
    line.push('\'');
    let text = from_utf8_lossy(rest);
    push_str(&mut line, text.as_str());
    line.push('\'');
    print_line(line.as_str());
}

/// Reads the first field of `rest`, following `next_field`. With `echo`,
/// each quote found inside a quoted field first has what is left of the
/// field printed (see `echo_quoted_rest`).
pub fn scan_field<'a>(rest: &'a [u8], echo: bool) -> (res: FieldScan<'a>)
    ensures
        res@ == next_field(rest@),
{
    if rest.len() > 0 && rest[0] == QUOTE {
        return scan_quoted(rest, echo);
    }
    let cp = find_byte(rest, COMMA, 0);
    let qp = find_byte(rest, QUOTE, 0);
    proof {
        lemma_index_from_bounds(rest@, COMMA, 0);
        lemma_index_from_bounds(rest@, QUOTE, 0);
    }
    if cp >= rest.len() {
        if qp >= rest.len() {
            FieldScan::Field(FieldData::Clean(rest), None)
        } else {
            FieldScan::Fail(ParseFault::QuoteInUnescapedField, true)
        }
    } else if qp < cp {
        FieldScan::Fail(ParseFault::QuoteInUnescapedField, false)
    } else {
        let field = vstd::slice::slice_subrange(rest, 0, cp);
        let next = vstd::slice::slice_subrange(rest, cp + 1, rest.len());
        assert(next@ =~= rest@.skip(cp + 1));
        FieldScan::Field(FieldData::Clean(field), Some(next))
    }
}

// ------------------------------------------------------------------------
// What a field is written as, and compared with
// ------------------------------------------------------------------------

/// The bytes a field is written as in CSV: an unquoted field as it is, a
/// quoted one with a quote before each piece and a closing quote.
pub open spec fn encoded(f: FieldModel) -> Seq<u8> {
    match f {
        FieldModel::Clean(s) => s,
        FieldModel::Escaped(ps) => ps.map_values(|p: Seq<u8>| seq![QUOTE] + p).flatten() + seq![
            QUOTE,
        ],
    }
}

/// The text of a field: each piece decoded from UTF-8, invalid sequences
/// replaced.
pub open spec fn lossy_text(f: FieldModel) -> Seq<char> {
    match f {
        FieldModel::Clean(s) => utf8_lossy(s),
        FieldModel::Escaped(ps) => ps.map_values(|p: Seq<u8>| utf8_lossy(p)).flatten(),
    }
}

/// In valid UTF-8, the byte after an ASCII character that starts at a
/// character boundary starts one too.
proof fn lemma_boundary_after_ascii(b: Seq<u8>, j: int)
    requires
        valid_utf8(b),
        0 <= j < b.len(),
        is_char_boundary(b, j),
        b[j] <= 0x7f,
    ensures
        is_char_boundary(b, j + 1),
    decreases b.len(),
{
    let n = length_of_first_scalar(b);
    let t = pop_first_scalar(b);
    assert(1 <= n <= b.len());
    assert(t.len() == b.len() - n);
    assert(valid_utf8(t));
    if j == 0 {
        assert(n == 1);
        assert(is_char_boundary(t, 0));
    } else {
        assert(is_char_boundary(t, j - n));
        assert(t[j - n] == b[j]);
        lemma_boundary_after_ascii(t, j - n);
    }
}

/// Valid UTF-8 cut into well-formed pieces of a quoted field is valid
/// piece by piece, and decodes piece by piece.
pub proof fn lemma_pieces_decode(ps: Seq<Seq<u8>>)
    requires
        pieces_well_formed(ps),
        valid_utf8(ps.flatten()),
    ensures
        forall|i: int| 0 <= i < ps.len() ==> valid_utf8(#[trigger] ps[i]),
        decode_utf8(ps.flatten()) == ps.map_values(|p: Seq<u8>| decode_utf8(p)).flatten(),
    decreases ps.len(),
{
    let f = |p: Seq<u8>| decode_utf8(p);
    if ps.len() == 0 {
        assert(ps.map_values(f) =~= Seq::<Seq<char>>::empty());
    } else {
        let whole = ps.flatten();
        let rest = ps.drop_first();
        let k = ps[0].len() as int;
        assert(whole == ps[0] + rest.flatten());
        assert(pieces_well_formed(rest)) by {
            assert forall|i: int| 0 <= i < rest.len() - 1 implies #[trigger] rest[i].len() > 0
                && rest[i].last() == QUOTE by {
                assert(rest[i] == ps[i + 1]);
            }
        }
        is_char_boundary_start_end_of_seq(whole);
        if ps.len() > 1 {
            assert(ps[0].len() > 0 && ps[0].last() == QUOTE);
            assert(whole[k - 1] == QUOTE);
            is_char_boundary_iff_not_is_continuation_byte(whole, k - 1);
            if k < whole.len() {
                lemma_boundary_after_ascii(whole, k - 1);
            }
        } else {
            assert(rest.flatten() =~= Seq::<u8>::empty());
            assert(k == whole.len());
        }
        assert(is_char_boundary(whole, k));
        valid_utf8_split(whole, k);
        decode_utf8_split(whole, k);
        assert(whole.subrange(0, k) =~= ps[0]);
        assert(whole.subrange(k, whole.len() as int) =~= rest.flatten());
        lemma_pieces_decode(rest);
        assert forall|i: int| 0 <= i < ps.len() implies valid_utf8(#[trigger] ps[i]) by {
            if i > 0 {
                assert(ps[i] == rest[i - 1]);
            }
        }
        let m = ps.map_values(f);
        assert(m.drop_first() =~= rest.map_values(f));
        assert(m.flatten() == m[0] + m.drop_first().flatten());
    }
}

/// Compares the pieces `parts` with `other` from index `pos` on, piece by
/// piece: `Some(false)` at the first piece that differs, `Some(true)` when
/// all match, and `None` when a piece reaches past the end of `other`
/// before any differed.
pub open spec fn parts_match(parts: Seq<Seq<u8>>, other: Seq<u8>, pos: int) -> Option<bool>
    decreases parts.len(),
{
    if parts.len() == 0 {
        Some(true)
    } else if pos + parts[0].len() > other.len() {
        None
    } else if other.subrange(pos, pos + parts[0].len()) != parts[0] {
        Some(false)
    } else {
        parts_match(parts.drop_first(), other, pos + parts[0].len())
    }
}

/// A field can be compared with `other` without reaching past its end.
pub open spec fn contents_eq_defined(f: FieldModel, other: Seq<u8>) -> bool {
    match f {
        FieldModel::Clean(_) => true,
        FieldModel::Escaped(ps) => parts_match(ps, other, 0) is Some,
    }
}

/// The outcome of comparing a field with `other`: an unquoted field must
/// equal it; the pieces of a quoted one must match it one after another.
pub open spec fn contents_eq_spec(f: FieldModel, other: Seq<u8>) -> bool {
    match f {
        FieldModel::Clean(s) => s == other,
        FieldModel::Escaped(ps) => parts_match(ps, other, 0) == Some(true),
    }
}

/// Matching all pieces means the bytes they stand for start `other`
/// at `pos`; and whenever they do, the comparison is defined.
pub proof fn lemma_parts_match_prefix(parts: Seq<Seq<u8>>, other: Seq<u8>, pos: int)
    requires
        0 <= pos <= other.len(),
    ensures
        (parts_match(parts, other, pos) == Some(true)) <==> (pos + parts.flatten().len()
            <= other.len() && other.subrange(pos, pos + parts.flatten().len())
            == parts.flatten()),
    decreases parts.len(),
{
    if parts.len() == 0 {
        assert(other.subrange(pos, pos) =~= parts.flatten());
    } else {
        let p = parts[0];
        let rest = parts.drop_first();
        let flat = parts.flatten();
        assert(flat == p + rest.flatten());
        let n = flat.len();
        assert(n == p.len() + rest.flatten().len());
        if pos + p.len() > other.len() {
            assert(parts_match(parts, other, pos) is None);
        } else {
            lemma_parts_match_prefix(rest, other, pos + p.len());
            let head = other.subrange(pos, pos + p.len());
            if head != p {
                assert(parts_match(parts, other, pos) == Some(false));
                if pos + n <= other.len() && other.subrange(pos, pos + n) == flat {
                    assert(other.subrange(pos, pos + n).subrange(0, p.len() as int) =~= head);
                    assert(flat.subrange(0, p.len() as int) =~= p);
                    assert(false);
                }
            } else {
                assert(parts_match(parts, other, pos) == parts_match(rest, other, pos + p.len()));
                if pos + n <= other.len() {
                    let whole = other.subrange(pos, pos + n);
                    let tail = other.subrange(pos + p.len(), pos + n);
                    assert(whole =~= head + tail);
                    if whole == flat {
                        assert(flat.subrange(p.len() as int, n as int) =~= rest.flatten());
                        assert(whole.subrange(p.len() as int, n as int) =~= tail);
                    }
                    if tail == rest.flatten() {
                        assert(whole =~= flat);
                    }
                }
            }
        }
    }
}

/// Appends the bytes of `s`.
pub fn append_slice(out: &mut Vec<u8>, s: &[u8])
    ensures
        final(out)@ == old(out)@ + s@,
{
    let mut i: usize = 0;
    while i < s.len()
        invariant
            i <= s@.len(),
            out@ == old(out)@ + s@.take(i as int),
        decreases s@.len() - i,
    {
        out.push(s[i]);
        assert(s@.take(i + 1) =~= s@.take(i as int).push(s@[i as int]));
        i = i + 1;
    }
    assert(s@.take(i as int) =~= s@);
}

/// Whether two byte strings are equal.
pub fn bytes_eq(a: &[u8], b: &[u8]) -> (res: bool)
    ensures
        res == (a@ == b@),
{
    if a.len() != b.len() {
        return false;
    }
    let mut i: usize = 0;
    while i < a.len()
        invariant
            a@.len() == b@.len(),
            i <= a@.len(),
            forall|j: int| 0 <= j < i ==> a@[j] == b@[j],
        decreases a@.len() - i,
    {
        if a[i] != b[i] {
            return false;
        }
        i = i + 1;
    }
    assert(a@ =~= b@);
    true
}

impl<'a> FieldData<'a> {
    /// Appends the bytes the field stands for.
    pub fn append_content(&self, out: &mut Vec<u8>)
        ensures
            final(out)@ == old(out)@ + self@.content(),
    {
        match self {
            FieldData::Clean(s) => append_slice(out, s),
            FieldData::Escaped(parts) => {
                let ghost ps = slices_view(parts@);
                let mut k: usize = 0;
                assert(ps.take(0).flatten() =~= Seq::<u8>::empty());
                while k < parts.len()
                    invariant
                        ps == slices_view(parts@),
                        k <= parts@.len(),
                        out@ == old(out)@ + ps.take(k as int).flatten(),
                    decreases parts@.len() - k,
                {
                    append_slice(out, parts[k]);
                    proof {
                        assert(ps.take(k + 1) =~= ps.take(k as int).push(ps[k as int]));
                        ps.take(k as int).lemma_flatten_push(ps[k as int]);
                    }
                    k = k + 1;
                }
                assert(ps.take(k as int) =~= ps);
            },
        }
    }

    /// Appends the bytes the field is written as in CSV.
    pub fn append_encoded(&self, out: &mut Vec<u8>)
        ensures
            final(out)@ == old(out)@ + encoded(self@),
    {
        match self {
            FieldData::Clean(s) => append_slice(out, s),
            FieldData::Escaped(parts) => {
                let ghost ps = slices_view(parts@);
                let ghost qs = ps.map_values(|p: Seq<u8>| seq![QUOTE] + p);
                let mut k: usize = 0;
                assert(qs.take(0).flatten() =~= Seq::<u8>::empty());
                while k < parts.len()
                    invariant
                        ps == slices_view(parts@),
                        qs == ps.map_values(|p: Seq<u8>| seq![QUOTE] + p),
                        k <= parts@.len(),
                        out@ == old(out)@ + qs.take(k as int).flatten(),
                    decreases parts@.len() - k,
                {
                    out.push(QUOTE);
                    append_slice(out, parts[k]);
                    proof {
                        assert(qs.take(k + 1) =~= qs.take(k as int).push(qs[k as int]));
                        qs.take(k as int).lemma_flatten_push(qs[k as int]);
                        assert(out@ =~= old(out)@ + qs.take(k + 1).flatten());
                    }
                    k = k + 1;
                }
                assert(qs.take(k as int) =~= qs);
                out.push(QUOTE);
                assert(out@ =~= old(out)@ + encoded(self@));
            },
        }
    }

    /// Compares the field with `other` as `contents_eq_spec` says.
    pub fn contents_eq(&self, other: &[u8]) -> (res: bool)
        requires
            contents_eq_defined(self@, other@),
        ensures
            res == contents_eq_spec(self@, other@),
    {
        match self {
            FieldData::Clean(s) => bytes_eq(s, other),
            FieldData::Escaped(parts) => {
                let ghost ps = slices_view(parts@);
                assert(self@ == FieldModel::Escaped(ps));
                let olen = other.len();
                let mut pos: usize = 0;
                let mut k: usize = 0;
                assert(ps.skip(0) =~= ps);
                while k < parts.len()
                    invariant
                        ps == slices_view(parts@),
                        k <= parts@.len(),
                        pos <= other@.len(),
                        olen == other@.len(),
                        self@ == FieldModel::Escaped(ps),
                        parts_match(ps, other@, 0) == parts_match(
                            ps.skip(k as int),
                            other@,
                            pos as int,
                        ),
                        parts_match(ps, other@, 0) is Some,
                    decreases parts@.len() - k,
                {
                    let part = parts[k];
                    let ghost sk = ps.skip(k as int);
                    assert(sk[0] == part@);
                    assert(sk.drop_first() =~= ps.skip(k + 1));
                    assert(parts_match(sk, other@, pos as int) == if pos + sk[0].len()
                        > other@.len() {
                        None
                    } else if other@.subrange(pos as int, pos + sk[0].len()) != sk[0] {
                        Some(false)
                    } else {
                        parts_match(sk.drop_first(), other@, pos + sk[0].len())
                    });
                    assert(pos + part@.len() <= other@.len());
                    let plen = part.len();
                    assert(plen == part@.len());
                    let end = pos + plen;
                    let window = vstd::slice::slice_subrange(other, pos, end);
                    if !bytes_eq(part, window) {
                        return false;
                    }
                    pos = end;
                    k = k + 1;
                }
                assert(ps.skip(k as int).len() == 0);
                true
            },
        }
    }

    /// Whether comparing the field with `other` stays within `other`.
    pub fn contents_eq_in_bounds(&self, other: &[u8]) -> (res: bool)
        ensures
            res == contents_eq_defined(self@, other@),
    {
        match self {
            FieldData::Clean(_) => true,
            FieldData::Escaped(parts) => {
                let ghost ps = slices_view(parts@);
                let olen = other.len();
                let mut pos: usize = 0;
                let mut k: usize = 0;
                assert(ps.skip(0) =~= ps);
                while k < parts.len()
                    invariant
                        ps == slices_view(parts@),
                        k <= parts@.len(),
                        pos <= other@.len(),
                        olen == other@.len(),
                        self@ == FieldModel::Escaped(ps),
                        parts_match(ps, other@, 0) == parts_match(
                            ps.skip(k as int),
                            other@,
                            pos as int,
                        ),
                    decreases parts@.len() - k,
                {
                    let part = parts[k];
                    let ghost sk = ps.skip(k as int);
                    assert(sk[0] == part@);
                    assert(sk.drop_first() =~= ps.skip(k + 1));
                    let plen = part.len();
                    if plen > olen - pos {
                        return false;
                    }
                    let end = pos + plen;
                    let window = vstd::slice::slice_subrange(other, pos, end);
                    if !bytes_eq(part, window) {
                        return true;
                    }
                    pos = end;
                    k = k + 1;
                }
                assert(ps.skip(k as int).len() == 0);
                true
            },
        }
    }

    /// The text of the field, decoded piece by piece. Where the field is
    /// well formed and its bytes are valid UTF-8, that is the decoded text
    /// of its bytes.
    pub fn to_text(&self) -> (res: String)
        ensures
            res@ == lossy_text(self@),
            field_well_formed(self@) && valid_utf8(self@.content()) ==> res@ == decode_utf8(
                self@.content(),
            ),
    {
        match self {
            FieldData::Clean(s) => from_utf8_lossy(s),
            FieldData::Escaped(parts) => {
                let ghost ps = slices_view(parts@);
                let ghost ts = ps.map_values(|p: Seq<u8>| utf8_lossy(p));
                let mut res = String::new();
                let mut k: usize = 0;
                assert(ts.take(0).flatten() =~= Seq::<char>::empty());
                while k < parts.len()
                    invariant
                        ps == slices_view(parts@),
                        ts == ps.map_values(|p: Seq<u8>| utf8_lossy(p)),
                        k <= parts@.len(),
                        res@ == ts.take(k as int).flatten(),
                        forall|j: int|
                            0 <= j < k && valid_utf8(#[trigger] ps[j]) ==> utf8_lossy(ps[j])
                                == decode_utf8(ps[j]),
                    decreases parts@.len() - k,
                {
                    let t = from_utf8_lossy(parts[k]);
                    res.append(t.as_str());
                    proof {
                        assert(ts.take(k + 1) =~= ts.take(k as int).push(ts[k as int]));
                        ts.take(k as int).lemma_flatten_push(ts[k as int]);
                        assert(ps[k as int] == parts@[k as int]@);
                    }
                    k = k + 1;
                }
                assert(ts.take(k as int) =~= ts);
                proof {
                    if pieces_well_formed(ps) && valid_utf8(ps.flatten()) {
                        lemma_pieces_decode(ps);
                        assert(ts =~= ps.map_values(|p: Seq<u8>| decode_utf8(p)));
                    }
                }
                res
            },
        }
    }
}

} // verus!
