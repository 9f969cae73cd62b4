//! Small helpers of the command-line tools.
use vstd::prelude::*;
use vstd::string::StrSliceExecFns;

use super::argparse::arglex::char_index_from;

verus! {

/// How `source[:destination]` splits: the text before the first `:`, and
/// the text after it up to the next `:`; without a `:`, both are the whole.
pub open spec fn source_and_destination(s: Seq<char>) -> (Seq<char>, Seq<char>) {
    let i = char_index_from(s, ':', 0) as int;
    if i >= s.len() {
        (s, s)
    } else {
        let rest = s.skip(i + 1);
        let j = char_index_from(rest, ':', 0) as int;
        (s.take(i), rest.take(j))
    }
}

fn find_char(s: &str, c: char, from: usize) -> (res: usize)
    requires
        from <= s@.len(),
    ensures
        res == char_index_from(s@, c, from as nat),
        res <= s@.len(),
{
    let n = s.unicode_len();
    let mut i = from;
    while i < n && s.get_char(i) != c
        invariant
            n == s@.len(),
            from <= i <= n,
            char_index_from(s@, c, from as nat) == char_index_from(s@, c, i as nat),
        decreases n - i,
    {
        i = i + 1;
    }
    i
}

/// Splits a `source[:destination]` column argument.
pub fn get_source_and_destination(s: &str) -> (res: (&str, &str))
    ensures
        (res.0@, res.1@) == source_and_destination(s@),
{
    let n = s.unicode_len();
    let i = find_char(s, ':', 0);
    if i >= n {
        return (s, s);
    }
    let source = s.substring_char(0, i);
    let rest = s.substring_char(i + 1, n);
    let j = find_char(rest, ':', 0);
    let destination = rest.substring_char(0, j);
    (source, destination)
}

} // verus!
