//! What holds across reading and writing CSV: a value written as a quoted
//! field reads back as itself, alone or in a record of such fields; a field
//! read from quoted text writes back to that text, and so does a whole
//! record; a quoted field stands for its text with doubled quotes read as
//! one; values with no comma or quote, joined with commas, split back at
//! the commas; a field compares equal to its own bytes; reads of a file and
//! `read_record` take whole lines up to the first line end where the quotes
//! balance; and `Record::read` pushes the fields it read.
use vstd::prelude::*;

use super::grammar::{
    content_len, file_step, line_end, lemma_until_end_bounds, FileStep, NEWLINE,
    CARRIAGE_RETURN, contents_eq_defined, contents_eq_spec, encoded, first_index, lemma_first_index_concat,
    lemma_index_from_bounds, lemma_parse_fields_step, lemma_parts_match_prefix, next_field,
    parse_fields, prepend_parts, quotes_balanced, record_end, scan_escaped, EscapedScan,
    FieldModel, FieldStep, COMMA, QUOTE,
};
use super::read::read_outcome;
use super::write::{escape, quote};

verus! {

broadcast use vstd::seq_lib::group_seq_properties;

/// The pieces that a quoted field holding `x` is read as: `x` cut after
/// each of its quotes.
pub open spec fn pieces(x: Seq<u8>) -> Seq<Seq<u8>>
    decreases x.len(),
{
    let k = first_index(x, QUOTE) as int;
    if k >= x.len() || k < 0 {
        seq![x]
    } else {
        seq![x.take(k + 1)] + pieces(x.skip(k + 1))
    }
}

/// The values `xs`, each written as a quoted field, separated by commas.
pub open spec fn join_quoted(xs: Seq<Seq<u8>>) -> Seq<u8>
    decreases xs.len(),
{
    if xs.len() <= 1 {
        if xs.len() == 1 {
            quote(xs[0])
        } else {
            seq![]
        }
    } else {
        quote(xs[0]) + seq![COMMA] + join_quoted(xs.drop_first())
    }
}

/// The fields that the values `xs` read back as.
pub open spec fn quoted_fields(xs: Seq<Seq<u8>>) -> Seq<FieldModel> {
    xs.map_values(|x: Seq<u8>| FieldModel::Escaped(pieces(x)))
}

proof fn lemma_escape_concat(a: Seq<u8>, b: Seq<u8>)
    ensures
        escape(a + b) == escape(a) + escape(b),
    decreases b.len(),
{
    if b.len() == 0 {
        assert(a + b =~= a);
        assert(escape(a) + escape(b) =~= escape(a));
    } else {
        lemma_escape_concat(a, b.drop_last());
        assert((a + b).drop_last() =~= a + b.drop_last());
        assert((a + b).last() == b.last());
    }
}

proof fn lemma_escape_plain(a: Seq<u8>)
    requires
        forall|j: int| 0 <= j < a.len() ==> a[j] != QUOTE,
    ensures
        escape(a) == a,
    decreases a.len(),
{
    if a.len() > 0 {
        lemma_escape_plain(a.drop_last());
        assert(a.drop_last().push(a.last()) =~= a);
    }
}

/// `escape` around the first quote of `x`.
proof fn lemma_escape_split(x: Seq<u8>)
    ensures
        ({
            let k = first_index(x, QUOTE) as int;
            &&& 0 <= k <= x.len()
            &&& k == x.len() ==> escape(x) == x
            &&& k < x.len() ==> escape(x) == x.take(k) + seq![QUOTE, QUOTE] + escape(x.skip(k + 1))
        }),
{
    lemma_index_from_bounds(x, QUOTE, 0);
    let k = first_index(x, QUOTE) as int;
    if k == x.len() {
        lemma_escape_plain(x);
    } else {
        let a = x.take(k);
        let y = x.skip(k + 1);
        assert(x =~= a + (seq![QUOTE] + y));
        lemma_escape_concat(a, seq![QUOTE] + y);
        lemma_escape_concat(seq![QUOTE], y);
        lemma_escape_plain(a);
        let q1: Seq<u8> = seq![QUOTE];
        assert(q1.drop_last() =~= Seq::<u8>::empty());
        assert(escape(Seq::<u8>::empty()) == Seq::<u8>::empty());
        assert(q1.last() == QUOTE);
        assert(escape(q1) == escape(q1.drop_last()) + seq![QUOTE, QUOTE]);
        assert(escape(q1) =~= seq![QUOTE, QUOTE]);
    }
}

proof fn lemma_pieces_flatten(x: Seq<u8>)
    ensures
        pieces(x).flatten() == x,
    decreases x.len(),
{
    lemma_index_from_bounds(x, QUOTE, 0);
    let k = first_index(x, QUOTE) as int;
    if k >= x.len() {
        seq![x].lemma_flatten_one_element();
    } else {
        lemma_pieces_flatten(x.skip(k + 1));
        let ps = pieces(x);
        assert(ps[0] == x.take(k + 1));
        assert(ps.drop_first() =~= pieces(x.skip(k + 1)));
        assert(x =~= x.take(k + 1) + x.skip(k + 1));
    }
}

/// Scanning `x + "` + t` when `x` holds no quote.
proof fn lemma_scan_plain_value(x: Seq<u8>, t: Seq<u8>)
    requires
        t.len() == 0 || t[0] == COMMA,
        forall|j: int| 0 <= j < x.len() ==> x[j] != QUOTE,
    ensures
        scan_escaped(x + seq![QUOTE] + t) == if t.len() == 0 {
            EscapedScan::Last(seq![x])
        } else {
            EscapedScan::More(seq![x], t.drop_first())
        },
{
    let r = x + seq![QUOTE] + t;
    let c = seq![QUOTE] + t;
    assert(r =~= x + c);
    lemma_first_index_concat(x, c, QUOTE);
    assert(c[0] == QUOTE);
    assert(first_index(c, QUOTE) == 0) by {
        lemma_index_from_bounds(c, QUOTE, 0);
    }
    assert(first_index(r, QUOTE) == x.len());
    assert(r.take(x.len() as int) =~= x);
    if t.len() > 0 {
        assert(r[x.len() as int + 1] == t[0]);
        assert(r.skip(x.len() as int + 2) =~= t.drop_first());
    }
}

/// The first quote of `escape(x) + "` + t` when `x` has a quote at `k`.
proof fn lemma_scan_split_value(x: Seq<u8>, t: Seq<u8>, k: int)
    requires
        0 <= k < x.len(),
        k == first_index(x, QUOTE),
        escape(x) == x.take(k) + seq![QUOTE, QUOTE] + escape(x.skip(k + 1)),
    ensures
        ({
            let r = escape(x) + seq![QUOTE] + t;
            &&& first_index(r, QUOTE) == k
            &&& k + 1 < r.len()
            &&& r[k + 1] == QUOTE
            &&& r.take(k + 1) == x.take(k + 1)
            &&& r.skip(k + 2) == escape(x.skip(k + 1)) + seq![QUOTE] + t
        }),
{
    let a = x.take(k);
    let y = x.skip(k + 1);
    let r = escape(x) + seq![QUOTE] + t;
    lemma_index_from_bounds(x, QUOTE, 0);
    assert forall|j: int| 0 <= j < a.len() implies a[j] != QUOTE by {}
    let tail = seq![QUOTE, QUOTE] + escape(y) + seq![QUOTE] + t;
    assert(r =~= a + tail);
    lemma_first_index_concat(a, tail, QUOTE);
    assert(first_index(tail, QUOTE) == 0) by {
        lemma_index_from_bounds(tail, QUOTE, 0);
    }
    assert(x[k] == QUOTE);
    assert(r.take(k + 1) =~= x.take(k + 1));
    assert(r.skip(k + 2) =~= escape(y) + seq![QUOTE] + t);
}

/// Scanning the inside of a quoted field that holds `x`, followed by the
/// end of the record or by a comma.
proof fn lemma_scan_quoted_value(x: Seq<u8>, t: Seq<u8>)
    requires
        t.len() == 0 || t[0] == COMMA,
    ensures
        scan_escaped(escape(x) + seq![QUOTE] + t) == if t.len() == 0 {
            EscapedScan::Last(pieces(x))
        } else {
            EscapedScan::More(pieces(x), t.drop_first())
        },
    decreases x.len(),
{
    lemma_escape_split(x);
    lemma_index_from_bounds(x, QUOTE, 0);
    let k = first_index(x, QUOTE) as int;
    if k == x.len() {
        lemma_scan_plain_value(x, t);
    } else {
        let y = x.skip(k + 1);
        lemma_scan_split_value(x, t, k);
        let r = escape(x) + seq![QUOTE] + t;
        assert(scan_escaped(r) == prepend_parts(
            seq![r.take(k + 1)],
            scan_escaped(r.skip(k + 2)),
        ));
        lemma_scan_quoted_value(y, t);
        assert(pieces(x) == seq![x.take(k + 1)] + pieces(y));
    }
}

/// **Law.** A value written as a quoted field (as `encode_and_write_quoted`
/// writes it) reads back as one field that stands for exactly that value,
/// and nothing follows it.
pub proof fn law_quoted_field_roundtrip(x: Seq<u8>)
    ensures
        next_field(quote(x)) == FieldStep::Field(FieldModel::Escaped(pieces(x)), None),
        FieldModel::Escaped(pieces(x)).content() == x,
        parse_fields(quote(x)) == (seq![FieldModel::Escaped(pieces(x))], None::<
            super::grammar::ParseFault,
        >),
{
    let t = Seq::<u8>::empty();
    lemma_scan_quoted_value(x, t);
    assert(quote(x).drop_first() =~= escape(x) + seq![QUOTE] + t);
    lemma_pieces_flatten(x);
    lemma_parse_fields_step(quote(x));
}

/// **Law.** A record written as quoted fields separated by commas reads back
/// field by field as the values written, in order, with no error.
pub proof fn law_quoted_record_roundtrip(xs: Seq<Seq<u8>>)
    requires
        xs.len() > 0,
    ensures
        parse_fields(join_quoted(xs)) == (quoted_fields(xs), None::<super::grammar::ParseFault>),
        forall|i: int| 0 <= i < xs.len() ==> #[trigger] quoted_fields(xs)[i].content() == xs[i],
    decreases xs.len(),
{
    assert forall|i: int| 0 <= i < xs.len() implies #[trigger] quoted_fields(xs)[i].content()
        == xs[i] by {
        lemma_pieces_flatten(xs[i]);
    }
    if xs.len() == 1 {
        law_quoted_field_roundtrip(xs[0]);
        assert(quoted_fields(xs) =~= seq![FieldModel::Escaped(pieces(xs[0]))]);
    } else {
        let rest = xs.drop_first();
        let t = seq![COMMA] + join_quoted(rest);
        lemma_scan_quoted_value(xs[0], t);
        let text = join_quoted(xs);
        assert(text =~= quote(xs[0]) + t);
        assert(text.drop_first() =~= escape(xs[0]) + seq![QUOTE] + t);
        assert(t.drop_first() =~= join_quoted(rest));
        lemma_parse_fields_step(text);
        law_quoted_record_roundtrip(rest);
        assert(quoted_fields(xs) =~= seq![FieldModel::Escaped(pieces(xs[0]))] + quoted_fields(
            rest,
        ));
    }
}

/// **Law.** A field read from a quoted value writes back (with
/// `write_encoded`) to exactly the quoted value it was read from.
pub proof fn law_quoted_field_rewrites(x: Seq<u8>)
    ensures
        encoded(FieldModel::Escaped(pieces(x))) == quote(x),
    decreases x.len(),
{
    lemma_escape_split(x);
    lemma_index_from_bounds(x, QUOTE, 0);
    let k = first_index(x, QUOTE) as int;
    let f = |p: Seq<u8>| seq![QUOTE] + p;
    let ps = pieces(x);
    if k == x.len() {
        assert(ps =~= seq![x]);
        let m = ps.map_values(f);
        assert(m =~= seq![seq![QUOTE] + x]);
        m.lemma_flatten_one_element();
        assert(encoded(FieldModel::Escaped(ps)) =~= quote(x));
    } else {
        let y = x.skip(k + 1);
        law_quoted_field_rewrites(y);
        let m = ps.map_values(f);
        let my = pieces(y).map_values(f);
        assert(ps =~= seq![x.take(k + 1)] + pieces(y));
        assert(m.len() > 0);
        assert(m[0] == seq![QUOTE] + x.take(k + 1));
        assert(m.drop_first() =~= my);
        assert(m.flatten() == m[0] + m.drop_first().flatten());
        assert(my.flatten() + seq![QUOTE] == quote(y));
        assert(x.take(k + 1) =~= x.take(k) + seq![QUOTE]);
        assert(encoded(FieldModel::Escaped(ps)) == m.flatten() + seq![QUOTE]);
        assert(m.flatten() + seq![QUOTE] =~= (seq![QUOTE] + x.take(k + 1)) + (my.flatten()
            + seq![QUOTE]));
        assert(encoded(FieldModel::Escaped(ps)) =~= quote(x));
    }
}

/// **Law.** A field compares equal (with `contents_eq`) to its own bytes,
/// and the comparison never reaches past them.
pub proof fn law_contents_eq_own_bytes(f: FieldModel)
    ensures
        contents_eq_defined(f, f.content()),
        contents_eq_spec(f, f.content()),
{
    match f {
        FieldModel::Clean(s) => {},
        FieldModel::Escaped(ps) => {
            lemma_parts_match_prefix(ps, ps.flatten(), 0);
            assert(ps.flatten().subrange(0, ps.flatten().len() as int) =~= ps.flatten());
        },
    }
}

/// **Law.** Comparing a quoted field with `other` tells whether the bytes it
/// stands for start `other`; an unquoted field must equal `other`.
pub proof fn law_contents_eq_meaning(f: FieldModel, other: Seq<u8>)
    requires
        contents_eq_defined(f, other),
    ensures
        contents_eq_spec(f, other) == match f {
            FieldModel::Clean(s) => s == other,
            FieldModel::Escaped(ps) => ps.flatten().is_prefix_of(other),
        },
{
    match f {
        FieldModel::Clean(s) => {},
        FieldModel::Escaped(ps) => {
            lemma_parts_match_prefix(ps, other, 0);
            let n = ps.flatten().len() as int;
            if ps.flatten().is_prefix_of(other) {
                assert(other.subrange(0, n) =~= ps.flatten());
            }
            if n <= other.len() && other.subrange(0, n) == ps.flatten() {
                assert forall|i: int| 0 <= i < n implies ps.flatten()[i] == other[i] by {
                    assert(other.subrange(0, n)[i] == other[i]);
                }
            }
        },
    }
}

/// The bytes after a record's content are its line end.
pub open spec fn is_line_end(s: Seq<u8>) -> bool {
    s.len() == 0 || s == seq![NEWLINE] || s == seq![CARRIAGE_RETURN, NEWLINE]
}

proof fn lemma_content_len(s: Seq<u8>)
    ensures
        content_len(s) <= s.len(),
        is_line_end(s.skip(content_len(s) as int)),
{
    if s.len() > 0 && s.last() == NEWLINE {
        if s.len() > 1 && s[s.len() - 2] == CARRIAGE_RETURN {
            assert(s.skip(s.len() - 2) =~= seq![CARRIAGE_RETURN, NEWLINE]);
        } else {
            assert(s.skip(s.len() - 1) =~= seq![NEWLINE]);
        }
    } else {
        assert(s.skip(s.len() as int) =~= Seq::<u8>::empty());
    }
}

proof fn lemma_file_step_shape(data: Seq<u8>, start: nat, cur: nat, first: bool)
    requires
        start <= cur <= data.len(),
    ensures
        match file_step(data, start, cur, first) {
            FileStep::End(p) => !first && p == data.len(),
            FileStep::Record { start: s, end, next } => s == start && start <= end <= next
                <= data.len() && is_line_end(data.subrange(end as int, next as int)) && (next
                == start ==> first),
        },
    decreases data.len() - cur,
{
    lemma_until_end_bounds(data, NEWLINE, cur);
    let next = line_end(data, cur);
    let read = data.subrange(start as int, next as int);
    lemma_content_len(read);
    assert(read.skip(content_len(read) as int) =~= data.subrange(
        (start + content_len(read)) as int,
        next as int,
    ));
    if !(!first && next <= cur) && next > cur && !super::grammar::quotes_balanced(read) {
        lemma_file_step_shape(data, start, next, first);
    }
    if next <= cur {
        assert(data.subrange(next as int, next as int) =~= Seq::<u8>::empty());
    }
}

/// **Law.** A read of a file takes the next record and its line end and no
/// more: the record starts where the last read stopped, and only its line
/// end (nothing, `\n` or `\r\n`) lies between it and where this read stops.
/// A read that finds no record has reached the end of the input, and it is
/// never the first read of the file.
pub proof fn law_file_read_takes_one_record(data: Seq<u8>, pos: nat, first: bool)
    requires
        pos <= data.len(),
    ensures
        match file_step(data, pos, pos, first) {
            FileStep::End(p) => !first && p == data.len(),
            FileStep::Record { start, end, next } => start == pos && pos <= end <= next
                <= data.len() && is_line_end(data.subrange(end as int, next as int)),
        },
{
    lemma_file_step_shape(data, pos, pos, first);
}

/// **Law.** Once a read of a file finds no record, every later read finds
/// none either.
pub proof fn law_file_end_is_final(data: Seq<u8>, pos: nat)
    requires
        pos <= data.len(),
    ensures
        file_step(data, pos, pos, false) is End ==> file_step(data, data.len(), data.len(), false)
            == FileStep::End(data.len()),
{
    lemma_file_step_shape(data, pos, pos, false);
    lemma_until_end_bounds(data, NEWLINE, data.len());
}

/// **Law.** `Record::read` asked for `n` fields succeeds only with exactly
/// `n` fields read, none malformed; asked for no count, it succeeds exactly
/// when no field is malformed, and then reads all of them.
pub proof fn law_record_read_counts(record: Seq<u8>, n: usize)
    ensures
        read_outcome(record, Some(n)).1 is None ==> read_outcome(record, Some(n)).0.len() == n
            && parse_fields(record).1 is None,
        (read_outcome(record, None).1 is None) == (parse_fields(record).1 is None),
        read_outcome(record, None).1 is None ==> read_outcome(record, None).0 == parse_fields(
            record,
        ).0,
{
}

/// **Law.** `Record::read` pushes the fields of the record in order, up to
/// the first malformed one and never more than the count asked for; it
/// succeeds exactly when no field is malformed and, where a count is asked
/// for, the record has exactly that many fields.
pub proof fn law_record_read_outcome(record: Seq<u8>, expected: Option<usize>)
    ensures
        ({
            let (fields, fault) = parse_fields(record);
            let limit = match expected {
                Some(n) => if (n as nat) < fields.len() {
                    n as nat
                } else {
                    fields.len()
                },
                None => fields.len(),
            };
            &&& read_outcome(record, expected).0 == fields.take(limit as int)
            &&& (read_outcome(record, expected).1 is None) == (fault is None && (expected matches Some(
                n,
            ) ==> n as nat == fields.len()))
        }),
{
    let (fields, fault) = parse_fields(record);
    assert(fields.take(fields.len() as int) =~= fields);
}

/// The fields `fs`, each as it is encoded, separated by commas.
pub open spec fn join_encoded(fs: Seq<FieldModel>) -> Seq<u8>
    decreases fs.len(),
{
    if fs.len() == 0 {
        seq![]
    } else if fs.len() == 1 {
        encoded(fs[0])
    } else {
        encoded(fs[0]) + seq![COMMA] + join_encoded(fs.drop_first())
    }
}

/// The inside of a quoted field is what its pieces encode.
proof fn lemma_scan_escaped_encoded(r: Seq<u8>)
    ensures
        scan_escaped(r) matches EscapedScan::Last(ps) ==> seq![QUOTE] + r == encoded(
            FieldModel::Escaped(ps),
        ),
        scan_escaped(r) matches EscapedScan::More(ps, t) ==> seq![QUOTE] + r == encoded(
            FieldModel::Escaped(ps),
        ) + seq![COMMA] + t,
    decreases r.len(),
{
    let f = |p: Seq<u8>| seq![QUOTE] + p;
    let q = first_index(r, QUOTE) as int;
    lemma_index_from_bounds(r, QUOTE, 0);
    if q >= r.len() {
    } else if q + 1 == r.len() {
        let ps: Seq<Seq<u8>> = seq![r.take(q)];
        let m = ps.map_values(f);
        assert(m =~= seq![seq![QUOTE] + r.take(q)]);
        m.lemma_flatten_one_element();
        assert(seq![QUOTE] + r =~= encoded(FieldModel::Escaped(ps)));
    } else if r[q + 1] == COMMA {
        let ps: Seq<Seq<u8>> = seq![r.take(q)];
        let m = ps.map_values(f);
        assert(m =~= seq![seq![QUOTE] + r.take(q)]);
        m.lemma_flatten_one_element();
        assert(seq![QUOTE] + r =~= encoded(FieldModel::Escaped(ps)) + seq![COMMA] + r.skip(q + 2));
    } else if r[q + 1] == QUOTE {
        let r2 = r.skip(q + 2);
        let head: Seq<Seq<u8>> = seq![r.take(q + 1)];
        lemma_scan_escaped_encoded(r2);
        assert(r =~= r.take(q + 1) + seq![QUOTE] + r2);
        match scan_escaped(r2) {
            EscapedScan::Last(p) => {
                let ps = head + p;
                let m = ps.map_values(f);
                assert(m.drop_first() =~= p.map_values(f));
                assert(m.flatten() == m[0] + m.drop_first().flatten());
                let inner = p.map_values(f).flatten();
                assert(encoded(FieldModel::Escaped(p)) == inner + seq![QUOTE]);
                assert(m[0] == seq![QUOTE] + r.take(q + 1));
                assert(encoded(FieldModel::Escaped(ps)) == m[0] + inner + seq![QUOTE]);
                assert(seq![QUOTE] + r2 == inner + seq![QUOTE]);
                assert(seq![QUOTE] + r =~= m[0] + (seq![QUOTE] + r2));
                assert(m[0] + inner + seq![QUOTE] =~= m[0] + (inner + seq![QUOTE]));
                assert(seq![QUOTE] + r =~= encoded(FieldModel::Escaped(ps)));
            },
            EscapedScan::More(p, t) => {
                let ps = head + p;
                let m = ps.map_values(f);
                assert(m.drop_first() =~= p.map_values(f));
                assert(m.flatten() == m[0] + m.drop_first().flatten());
                let inner = p.map_values(f).flatten();
                assert(encoded(FieldModel::Escaped(p)) == inner + seq![QUOTE]);
                assert(m[0] == seq![QUOTE] + r.take(q + 1));
                assert(encoded(FieldModel::Escaped(ps)) == m[0] + inner + seq![QUOTE]);
                assert(seq![QUOTE] + r2 == inner + seq![QUOTE] + seq![COMMA] + t);
                assert(seq![QUOTE] + r =~= m[0] + (seq![QUOTE] + r2));
                assert(m[0] + inner + seq![QUOTE] + seq![COMMA] + t =~= m[0] + (inner + seq![QUOTE]
                    + seq![COMMA] + t));
                assert(seq![QUOTE] + r =~= encoded(FieldModel::Escaped(ps)) + seq![COMMA] + t);
            },
            _ => {},
        }
    }
}

/// A field is what it encodes, followed by a comma and the rest of the
/// record where it does not end the record.
proof fn lemma_next_field_encoded(r: Seq<u8>)
    ensures
        next_field(r) matches FieldStep::Field(f, None) ==> encoded(f) == r,
        next_field(r) matches FieldStep::Field(f, Some(t)) ==> encoded(f) + seq![COMMA] + t == r,
{
    lemma_index_from_bounds(r, COMMA, 0);
    if r.len() > 0 && r[0] == QUOTE {
        lemma_scan_escaped_encoded(r.drop_first());
        assert(seq![QUOTE] + r.drop_first() =~= r);
    } else {
        let cp = first_index(r, COMMA) as int;
        if cp < r.len() {
            assert(r.take(cp) + seq![COMMA] + r.skip(cp + 1) =~= r);
        }
    }
}

/// **Law.** A record whose fields all read well writes back, field by field
/// (with `write_encoded`) and with a comma between fields, to exactly the
/// bytes it was read from.
pub proof fn law_record_reencodes(record: Seq<u8>)
    requires
        parse_fields(record).1 is None,
    ensures
        join_encoded(parse_fields(record).0) == record,
    decreases record.len(),
{
    lemma_parse_fields_step(record);
    lemma_next_field_encoded(record);
    match next_field(record) {
        FieldStep::Field(f, Some(t)) => {
            law_record_reencodes(t);
            lemma_parse_fields_step(t);
            let rest = parse_fields(t).0;
            assert(rest.len() > 0);
            let fs = seq![f] + rest;
            assert(fs.drop_first() =~= rest);
        },
        _ => {},
    }
}

/// The inside of a quoted field is its content with each quote doubled.
proof fn lemma_scan_escaped_content(r: Seq<u8>)
    ensures
        scan_escaped(r) matches EscapedScan::Last(ps) ==> r == escape(ps.flatten()) + seq![QUOTE],
        scan_escaped(r) matches EscapedScan::More(ps, t) ==> r == escape(ps.flatten()) + seq![
            QUOTE,
            COMMA,
        ] + t,
    decreases r.len(),
{
    let q = first_index(r, QUOTE) as int;
    lemma_index_from_bounds(r, QUOTE, 0);
    if q < r.len() {
        let a = r.take(q);
        assert forall|j: int| 0 <= j < a.len() implies a[j] != QUOTE by {}
        lemma_escape_plain(a);
        if q + 1 == r.len() {
            seq![a].lemma_flatten_one_element();
            assert(r =~= a + seq![QUOTE]);
        } else if r[q + 1] == COMMA {
            seq![a].lemma_flatten_one_element();
            assert(r =~= a + seq![QUOTE, COMMA] + r.skip(q + 2));
        } else if r[q + 1] == QUOTE {
            let r2 = r.skip(q + 2);
            let piece = r.take(q + 1);
            lemma_scan_escaped_content(r2);
            assert(piece.drop_last() =~= a);
            assert(piece.last() == QUOTE);
            assert(escape(piece) == escape(a) + seq![QUOTE, QUOTE]);
            match scan_escaped(r2) {
                EscapedScan::Last(p) => {
                    let ps = seq![piece] + p;
                    assert(ps.drop_first() =~= p);
                    assert(ps.flatten() == piece + p.flatten());
                    lemma_escape_concat(piece, p.flatten());
                    assert(r =~= escape(ps.flatten()) + seq![QUOTE]);
                },
                EscapedScan::More(p, t) => {
                    let ps = seq![piece] + p;
                    assert(ps.drop_first() =~= p);
                    assert(ps.flatten() == piece + p.flatten());
                    lemma_escape_concat(piece, p.flatten());
                    assert(r =~= escape(ps.flatten()) + seq![QUOTE, COMMA] + t);
                },
                _ => {},
            }
        }
    }
}

/// **Law.** A quoted field stands for the bytes between its quotes with
/// each doubled quote read as one (which is what `write_to` writes): the
/// bytes it was read from are its content, quoted, followed by a comma and
/// the rest of the record where it does not end the record.
pub proof fn law_quoted_segment(r: Seq<u8>)
    ensures
        match next_field(r) {
            FieldStep::Field(FieldModel::Escaped(ps), tail) => r == quote(
                FieldModel::Escaped(ps).content(),
            ) + match tail {
                Some(t) => seq![COMMA] + t,
                None => Seq::<u8>::empty(),
            },
            _ => true,
        },
{
    if r.len() > 0 && r[0] == QUOTE {
        lemma_scan_escaped_content(r.drop_first());
        match scan_escaped(r.drop_first()) {
            EscapedScan::Last(ps) => {
                assert(r =~= quote(ps.flatten()));
            },
            EscapedScan::More(ps, t) => {
                assert(r =~= quote(ps.flatten()) + (seq![COMMA] + t));
            },
            _ => {},
        }
    } else {
        lemma_index_from_bounds(r, COMMA, 0);
    }
}

/// The values `xs` separated by commas.
pub open spec fn join_with_commas(xs: Seq<Seq<u8>>) -> Seq<u8>
    decreases xs.len(),
{
    if xs.len() == 0 {
        seq![]
    } else if xs.len() == 1 {
        xs[0]
    } else {
        xs[0] + seq![COMMA] + join_with_commas(xs.drop_first())
    }
}

/// `s` holds neither a comma nor a quote.
pub open spec fn is_plain(s: Seq<u8>) -> bool {
    forall|j: int| 0 <= j < s.len() ==> s[j] != COMMA && s[j] != QUOTE
}

/// A value with no comma and no quote is read as one unquoted field.
proof fn lemma_plain_field_last(x: Seq<u8>)
    requires
        is_plain(x),
    ensures
        next_field(x) == FieldStep::Field(FieldModel::Clean(x), None),
{
    lemma_index_from_bounds(x, COMMA, 0);
    lemma_index_from_bounds(x, QUOTE, 0);
    if x.len() > 0 {
        assert(x[0] != QUOTE);
    }
}

/// A value with no comma and no quote, followed by a comma, is read as one
/// unquoted field, with what follows the comma left.
proof fn lemma_plain_field_then_comma(x: Seq<u8>, r: Seq<u8>)
    requires
        is_plain(x),
    ensures
        next_field(x + seq![COMMA] + r) == FieldStep::Field(FieldModel::Clean(x), Some(r)),
{
    let tail = seq![COMMA] + r;
    let text = x + tail;
    assert(x + seq![COMMA] + r =~= text);
    lemma_first_index_concat(x, tail, COMMA);
    lemma_first_index_concat(x, tail, QUOTE);
    lemma_index_from_bounds(tail, COMMA, 0);
    lemma_index_from_bounds(tail, QUOTE, 0);
    assert(tail[0] == COMMA);
    assert(first_index(tail, COMMA) == 0);
    if x.len() > 0 {
        assert(text[0] == x[0]);
    } else {
        assert(text[0] == COMMA);
    }
    assert(text.take(x.len() as int) =~= x);
    assert(text.skip(x.len() as int + 1) =~= r);
}

/// **Law.** Values that hold neither a comma nor a quote, joined with
/// commas, read back as exactly those values, in order, as unquoted fields;
/// an empty value (two commas in a row, or a comma at either end) reads as
/// an empty field.
pub proof fn law_plain_record_splits_at_commas(xs: Seq<Seq<u8>>)
    requires
        xs.len() > 0,
        forall|i: int| 0 <= i < xs.len() ==> is_plain(#[trigger] xs[i]),
    ensures
        parse_fields(join_with_commas(xs)) == (
            xs.map_values(|x: Seq<u8>| FieldModel::Clean(x)),
            None::<super::grammar::ParseFault>,
        ),
    decreases xs.len(),
{
    let x = xs[0];
    assert(is_plain(x));
    let text = join_with_commas(xs);
    if xs.len() == 1 {
        lemma_plain_field_last(x);
        lemma_parse_fields_step(text);
        assert(xs.map_values(|x: Seq<u8>| FieldModel::Clean(x)) =~= seq![FieldModel::Clean(x)]);
    } else {
        let rest = xs.drop_first();
        assert forall|i: int| 0 <= i < rest.len() implies is_plain(#[trigger] rest[i]) by {
            assert(rest[i] == xs[i + 1]);
        }
        law_plain_record_splits_at_commas(rest);
        lemma_plain_field_then_comma(x, join_with_commas(rest));
        lemma_parse_fields_step(text);
        assert(xs.map_values(|x: Seq<u8>| FieldModel::Clean(x)) =~= seq![FieldModel::Clean(x)]
            + rest.map_values(|x: Seq<u8>| FieldModel::Clean(x)));
    }
}

/// Whether index `k` of `data` ends a line: it follows a `\n`, or it is
/// the end of the input.
pub open spec fn ends_line(data: Seq<u8>, k: int) -> bool {
    k == data.len() || (0 < k <= data.len() && data[k - 1] == NEWLINE)
}

/// No whole lines read from `start`, up to any line end in `(start, upto]`,
/// hold balanced quotes.
pub open spec fn no_balanced_lines(data: Seq<u8>, start: int, upto: int) -> bool {
    forall|k: int|
        start < k <= upto && #[trigger] ends_line(data, k) ==> !quotes_balanced(
            data.subrange(start, k),
        )
}

proof fn lemma_record_end_stops(data: Seq<u8>, start: nat, cur: nat)
    requires
        start <= cur <= data.len(),
        no_balanced_lines(data, start as int, cur as int),
    ensures
        ({
            let (end, balanced) = record_end(data, start, cur);
            &&& cur <= end <= data.len()
            &&& balanced ==> end > cur && ends_line(data, end as int) && quotes_balanced(
                data.subrange(start as int, end as int),
            ) && no_balanced_lines(data, start as int, end - 1)
            &&& !balanced ==> end == data.len() && no_balanced_lines(data, start as int, end as int)
        }),
    decreases data.len() - cur,
{
    lemma_until_end_bounds(data, NEWLINE, cur);
    let next = line_end(data, cur);
    if next > cur {
        assert forall|k: int| cur < k < next implies !ends_line(data, k) by {
            assert(data[k - 1] != NEWLINE);
        }
        assert(ends_line(data, next as int));
        if !quotes_balanced(data.subrange(start as int, next as int)) {
            lemma_record_end_stops(data, start, next);
        }
    }
}

/// **Law.** `read_record` reads whole lines until the quotes read balance:
/// it stops at the first line end after the start where they do, and
/// otherwise reads to the end of the input. So a record it returns with
/// unbalanced quotes leaves the reader at the end of the input, and no
/// shorter run of whole lines had balanced quotes.
pub proof fn law_read_record_stops_at_first_balanced_line(data: Seq<u8>, start: nat)
    requires
        start <= data.len(),
    ensures
        ({
            let (end, balanced) = record_end(data, start, start);
            &&& start <= end <= data.len()
            &&& balanced ==> start < end && ends_line(data, end as int) && quotes_balanced(
                data.subrange(start as int, end as int),
            ) && no_balanced_lines(data, start as int, end - 1)
            &&& !balanced ==> end == data.len() && no_balanced_lines(
                data,
                start as int,
                data.len() as int,
            )
        }),
{
    lemma_record_end_stops(data, start, start);
}

proof fn lemma_file_step_stops(data: Seq<u8>, start: nat, cur: nat, first: bool)
    requires
        start <= cur <= data.len(),
        no_balanced_lines(data, start as int, cur as int),
    ensures
        match file_step(data, start, cur, first) {
            FileStep::End(p) => !first && p == data.len() && no_balanced_lines(
                data,
                start as int,
                data.len() as int,
            ),
            FileStep::Record { start: s, end, next } => s == start && cur <= next <= data.len()
                && ends_line(data, next as int) && no_balanced_lines(data, start as int, next - 1)
                && if quotes_balanced(data.subrange(start as int, next as int)) {
                end == start + content_len(data.subrange(start as int, next as int))
            } else {
                first && next == data.len() && end == next
            },
        },
    decreases data.len() - cur,
{
    lemma_until_end_bounds(data, NEWLINE, cur);
    let next = line_end(data, cur);
    assert(ends_line(data, next as int));
    if next > cur {
        assert forall|k: int| cur < k < next implies !ends_line(data, k) by {
            assert(data[k - 1] != NEWLINE);
        }
        if !quotes_balanced(data.subrange(start as int, next as int)) {
            lemma_file_step_stops(data, start, next, first);
        }
    }
}

/// **Law.** A read of a file stops at the first line end where the quotes
/// read since its start balance, and gives the record up to there, its
/// line end taken off. It gives no record only on a later read (not the
/// first) that finds no such line end before the end of the input: at the
/// end of the input, or where only a tail with unbalanced quotes is left.
/// A read that does find one, a blank line among them, always gives a
/// record.
pub proof fn law_file_read_stops_at_first_balanced_line(data: Seq<u8>, pos: nat, first: bool)
    requires
        pos <= data.len(),
    ensures
        match file_step(data, pos, pos, first) {
            FileStep::End(p) => !first && p == data.len() && no_balanced_lines(
                data,
                pos as int,
                data.len() as int,
            ),
            FileStep::Record { start, end, next } => start == pos && ends_line(data, next as int)
                && no_balanced_lines(data, pos as int, next - 1) && if quotes_balanced(
                data.subrange(pos as int, next as int),
            ) {
                end == pos + content_len(data.subrange(pos as int, next as int))
            } else {
                first && next == data.len() && end == next
            },
        },
        (exists|k: int| pos < k <= data.len() && ends_line(data, k) && quotes_balanced(
            data.subrange(pos as int, k),
        )) ==> file_step(data, pos, pos, first) is Record,
{
    lemma_file_step_stops(data, pos, pos, first);
}

} // verus!
