//! Writing CSV fields.
use vstd::prelude::*;

use super::grammar::{
    count_byte, lemma_count_byte_bound, lemma_count_byte_concat, lemma_count_byte_push, QUOTE,
};

verus! {

broadcast use vstd::seq_lib::group_seq_properties;

/// `s` with each quote doubled.
pub open spec fn escape(s: Seq<u8>) -> Seq<u8>
    decreases s.len(),
{
    if s.len() == 0 {
        seq![]
    } else {
        escape(s.drop_last()) + if s.last() == QUOTE {
            seq![QUOTE, QUOTE]
        } else {
            seq![s.last()]
        }
    }
}

/// `s` as a quoted CSV field.
pub open spec fn quote(s: Seq<u8>) -> Seq<u8> {
    seq![QUOTE] + escape(s) + seq![QUOTE]
}

pub proof fn lemma_escape_len(s: Seq<u8>)
    ensures
        escape(s).len() == s.len() + count_byte(s, QUOTE),
    decreases s.len(),
{
    if s.len() > 0 {
        lemma_escape_len(s.drop_last());
    }
}

/// Encodes the bytes of `reader` as a quoted CSV field and writes them to
/// `writer`: a quote, the bytes with each quote doubled, and a closing
/// quote. Returns how many bytes were written; that count must fit in a
/// `usize`.
pub fn encode_and_write_quoted(writer: &mut Vec<u8>, reader: &[u8]) -> (res: std::io::Result<
    usize,
>)
    requires
        reader@.len() + count_byte(reader@, QUOTE) + 2 <= usize::MAX,
    ensures
        final(writer)@ == old(writer)@ + quote(reader@),
        res matches Ok(n) && n == 2 + reader@.len() + count_byte(reader@, QUOTE) && n
            == quote(reader@).len() && final(writer)@.len() == old(writer)@.len() + n,
{
    let mut written: usize = 0;
    writer.push(QUOTE);
    written = written + 1;
    let mut i: usize = 0;
    while i < reader.len()
        invariant
            i <= reader@.len(),
            reader@.len() + count_byte(reader@, QUOTE) + 2 <= usize::MAX,
            writer@ == old(writer)@ + seq![QUOTE] + escape(reader@.take(i as int)),
            written == 1 + i + count_byte(reader@.take(i as int), QUOTE),
        decreases reader@.len() - i,
    {
        let c = reader[i];
        proof {
            assert(reader@.take(i + 1) =~= reader@.take(i as int).push(c));
            assert(reader@.take(i + 1).drop_last() =~= reader@.take(i as int));
            lemma_count_byte_push(reader@.take(i as int), c, QUOTE);
            lemma_count_byte_bound(reader@.take(i as int), QUOTE);
            lemma_count_byte_concat(reader@.take(i + 1), reader@.skip(i + 1), QUOTE);
            assert(reader@.take(i + 1) + reader@.skip(i + 1) =~= reader@);
        }
        if c == QUOTE {
            writer.push(c);
            writer.push(c);
            written = written + 2;
        } else {
            writer.push(c);
            written = written + 1;
        }
        i = i + 1;
        assert(writer@ =~= old(writer)@ + seq![QUOTE] + escape(reader@.take(i as int)));
    }
    assert(reader@.take(i as int) =~= reader@);
    proof {
        lemma_count_byte_bound(reader@, QUOTE);
    }
    writer.push(QUOTE);
    written = written + 1;
    assert(writer@ =~= old(writer)@ + quote(reader@));
    proof {
        lemma_escape_len(reader@);
    }
    Ok(written)
}

} // verus!
