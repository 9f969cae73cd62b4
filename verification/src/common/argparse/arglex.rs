//! Splitting command-line arguments into short options, long options (with
//! or without an `=` argument) and positional arguments.
use vstd::prelude::*;
use vstd::string::StrSliceExecFns;

verus! {

broadcast use vstd::seq_lib::group_seq_properties;

/// What a lexed argument is, over the characters of its parts.
pub enum TokenView {
    Short(char),
    Long(Seq<char>),
    LongArg(Seq<char>, Seq<char>),
    Positional(Seq<char>),
}

/// The first index at or after `i` where `s` holds `c`, or `s.len()`.
pub open spec fn char_index_from(s: Seq<char>, c: char, i: nat) -> nat
    decreases s.len() - i,
{
    if i >= s.len() {
        s.len()
    } else if s[i as int] == c {
        i
    } else {
        char_index_from(s, c, i + 1)
    }
}

pub proof fn lemma_char_index_from_bounds(s: Seq<char>, c: char, i: nat)
    requires
        i <= s.len(),
    ensures
        i <= char_index_from(s, c, i) <= s.len(),
    decreases s.len() - i,
{
    if i < s.len() && s[i as int] != c {
        lemma_char_index_from_bounds(s, c, i + 1);
    }
}

/// How one argument lexes: its token, and the characters of a cluster of
/// short options that are still to come.
///
/// `""`, `-` and `--` are positional; `--name=value` is a long option with
/// an argument, split at the first `=`; `--name` is a long option; `-abc`
/// is the short option `a`, with `bc` to come; anything else is positional.
pub open spec fn classify(a: Seq<char>) -> (TokenView, Seq<char>) {
    if a.len() == 0 || a == seq!['-'] || a == seq!['-', '-'] {
        (TokenView::Positional(a), seq![])
    } else if a.len() >= 2 && a[0] == '-' && a[1] == '-' {
        let s = a.skip(2);
        let e = char_index_from(s, '=', 0) as int;
        if e < s.len() {
            (TokenView::LongArg(s.take(e), s.skip(e + 1)), seq![])
        } else {
            (TokenView::Long(s), seq![])
        }
    } else if a[0] == '-' {
        (TokenView::Short(a[1]), a.skip(2))
    } else {
        (TokenView::Positional(a), seq![])
    }
}

/// One step of lexing, from the short options still to come in a cluster
/// and the arguments not yet read: the token, and what is left of both.
pub open spec fn lex_next(pending: Seq<char>, args: Seq<Seq<char>>) -> (
    Option<TokenView>,
    Seq<char>,
    Seq<Seq<char>>,
) {
    if pending.len() > 0 {
        (Some(TokenView::Short(pending[0])), pending.drop_first(), args)
    } else if args.len() == 0 {
        (None, seq![], args)
    } else {
        let (t, p) = classify(args[0]);
        (Some(t), p, args.drop_first())
    }
}

/// Taking the argument of an option: the rest of a cluster of short options
/// if there is any, or else the next argument whatever it looks like.
pub open spec fn lex_consume(pending: Seq<char>, args: Seq<Seq<char>>) -> (
    Option<Seq<char>>,
    Seq<char>,
    Seq<Seq<char>>,
) {
    if pending.len() > 0 {
        (Some(pending), seq![], args)
    } else if args.len() == 0 {
        (None, seq![], args)
    } else {
        (Some(args[0]), seq![], args.drop_first())
    }
}

/// The texts of a sequence of string slices.
pub open spec fn strs_view(v: Seq<&str>) -> Seq<Seq<char>> {
    v.map_values(|s: &str| s@)
}

/// The token that an argument lexes as, with the short options to come,
/// computed from its text.
pub(crate) fn classify_exec<'a>(a: &'a str) -> (res: (ArgToken<'a>, Option<&'a str>))
    ensures
        res.0@ == classify(a@).0,
        match res.1 {
            Some(p) => p@ == classify(a@).1,
            None => classify(a@).1.len() == 0,
        },
{
    let n = a.unicode_len();
    if n == 0 {
        return (ArgToken::Positional(a), None);
    }
    let c0 = a.get_char(0);
    if n == 1 && c0 == '-' {
        assert(a@ =~= seq!['-']);
        return (ArgToken::Positional(a), None);
    }
    let c1 = if n >= 2 {
        a.get_char(1)
    } else {
        c0
    };
    if n == 2 && c0 == '-' && c1 == '-' {
        assert(a@ =~= seq!['-', '-']);
        return (ArgToken::Positional(a), None);
    }
    proof {
        if a@ == seq!['-'] {
            assert(a@.len() == 1);
        }
        if a@ == seq!['-', '-'] {
            assert(a@.len() == 2 && a@[0] == '-' && a@[1] == '-');
        }
    }
    if n >= 2 && c0 == '-' && c1 == '-' {
        let s = a.substring_char(2, n);
        let m = n - 2;
        let mut e: usize = 0;
        while e < m && s.get_char(e) != '='
            invariant
                m == s@.len(),
                e <= m,
                char_index_from(s@, '=', 0) == char_index_from(s@, '=', e as nat),
            decreases m - e,
        {
            e = e + 1;
        }
        if e < m {
            let name = s.substring_char(0, e);
            let value = s.substring_char(e + 1, m);
            (ArgToken::LongArg(name, value), None)
        } else {
            (ArgToken::Long(s), None)
        }
    } else if c0 == '-' {
        let rest = a.substring_char(2, n);
        (ArgToken::Short(c1), Some(rest))
    } else {
        (ArgToken::Positional(a), None)
    }
}

/// A lexer over command-line arguments.
pub struct ArgLexer<'a> {
    args: Vec<&'a str>,
    next_arg: usize,
    remaining: Option<&'a str>,
}

/// A lexed argument.
#[derive(PartialEq, Eq, Debug)]
pub enum ArgToken<'a> {
    Short(char),
    Long(&'a str),
    LongArg(&'a str, &'a str),
    Positional(&'a str),
}

impl<'a> View for ArgToken<'a> {
    type V = TokenView;

    open spec fn view(&self) -> TokenView {
        match self {
            ArgToken::Short(c) => TokenView::Short(*c),
            ArgToken::Long(s) => TokenView::Long(s@),
            ArgToken::LongArg(p, a) => TokenView::LongArg(p@, a@),
            ArgToken::Positional(s) => TokenView::Positional(s@),
        }
    }
}

/// The view of an optional token.
pub open spec fn opt_token_view(t: Option<ArgToken>) -> Option<TokenView> {
    match t {
        Some(t) => Some(t@),
        None => None,
    }
}

impl<'a> ArgLexer<'a> {
    #[verifier::type_invariant]
    spec fn inv(&self) -> bool {
        self.next_arg <= self.args@.len()
    }

    /// The short options still to come in the current cluster.
    pub closed spec fn pending(&self) -> Seq<char> {
        match self.remaining {
            Some(r) => r@,
            None => seq![],
        }
    }

    /// The arguments not yet read.
    pub closed spec fn args_left(&self) -> Seq<Seq<char>> {
        strs_view(self.args@).skip(self.next_arg as int)
    }

    pub fn new(args: Vec<&'a str>) -> (res: Self)
        ensures
            res.pending() == Seq::<char>::empty(),
            res.args_left() == strs_view(args@),
    {
        let res = ArgLexer { args, next_arg: 0, remaining: None };
        assert(res.args_left() =~= strs_view(res.args@));
        res
    }

    /// Takes the argument of an option: the rest of the current cluster of
    /// short options if it is not empty, or else the next argument.
    pub fn consume_arg(&mut self) -> (res: Option<&'a str>)
        ensures
            ({
                let (r, p, args) = lex_consume(old(self).pending(), old(self).args_left());
                &&& match res {
                    Some(s) => r == Some(s@),
                    None => r is None,
                }
                &&& final(self).pending() == p
                &&& final(self).args_left() == args
            }),
    {
        proof {
            use_type_invariant(&*self);
        }
        let taken = self.remaining;
        self.remaining = None;
        if let Some(arg_chars) = taken {
            if arg_chars.unicode_len() != 0 {
                return Some(arg_chars);
            }
        }
        if self.next_arg >= self.args.len() {
            None
        } else {
            let a = self.args[self.next_arg];
            self.next_arg = self.next_arg + 1;
            assert(self.args_left() =~= old(self).args_left().drop_first());
            Some(a)
        }
    }

    /// Reads the next token.
    pub fn next(&mut self) -> (res: Option<ArgToken<'a>>)
        ensures
            ({
                let (t, p, args) = lex_next(old(self).pending(), old(self).args_left());
                &&& opt_token_view(res) == t
                &&& final(self).pending() == p
                &&& final(self).args_left() == args
            }),
    {
        proof {
            use_type_invariant(&*self);
        }
        let taken = self.remaining;
        self.remaining = None;
        if let Some(remaining) = taken {
            let n = remaining.unicode_len();
            if n > 0 {
                let c = remaining.get_char(0);
                self.remaining = Some(remaining.substring_char(1, n));
                assert(self.pending() =~= old(self).pending().drop_first());
                return Some(ArgToken::Short(c));
            }
        }
        if self.next_arg >= self.args.len() {
            return None;
        }
        let a = self.args[self.next_arg];
        self.next_arg = self.next_arg + 1;
        assert(self.args_left() =~= old(self).args_left().drop_first());
        let (t, rest) = classify_exec(a);
        self.remaining = rest;
        Some(t)
    }
}

/// **Law.** When the lexer has nothing more to give it says so, and goes on
/// saying so: nothing is left, and the next step gives nothing again.
pub proof fn law_lexer_end_is_final(pending: Seq<char>, args: Seq<Seq<char>>)
    ensures
        lex_next(pending, args).0 is None ==> ({
            let (_, p, rest) = lex_next(pending, args);
            &&& p.len() == 0 && rest.len() == 0
            &&& lex_next(p, rest).0 is None
            &&& lex_consume(p, rest).0 is None
        }),
{
}

/// **Law.** `-` followed by characters is a cluster of short options: the
/// first character is read as a short option, and the argument of that
/// option may follow it in the same word (`-ibackup` reads `i`, then
/// `backup` as its argument); without taking it, the rest of the word reads
/// as further short options, one character at a time.
pub proof fn law_short_cluster(c: char, rest: Seq<char>, more: Seq<Seq<char>>)
    requires
        c != '-',
    ensures
        lex_next(seq![], seq![seq!['-', c] + rest] + more) == (
            Some(TokenView::Short(c)),
            rest,
            more,
        ),
        rest.len() > 0 ==> lex_consume(rest, more) == (Some(rest), Seq::<char>::empty(), more),
        rest.len() > 0 ==> lex_next(rest, more) == (
            Some(TokenView::Short(rest[0])),
            rest.drop_first(),
            more,
        ),
{
    let a = seq!['-', c] + rest;
    assert((seq![a] + more)[0] == a);
    assert((seq![a] + more).drop_first() =~= more);
    assert(a[0] == '-' && a[1] == c);
    assert(a.skip(2) =~= rest);
    assert(a != seq!['-']) by {
        assert(a.len() >= 2);
    }
    if a =~= seq!['-', '-'] {
        assert(a[1] == '-');
    }
}

/// **Law.** `--name=value` is read as the long option `name` with the
/// argument `value`, split at the first `=`; `value` may hold `=`.
pub proof fn law_long_with_argument(name: Seq<char>, value: Seq<char>, more: Seq<Seq<char>>)
    requires
        forall|i: int| 0 <= i < name.len() ==> name[i] != '=',
    ensures
        lex_next(seq![], seq![seq!['-', '-'] + name + seq!['='] + value] + more) == (
            Some(TokenView::LongArg(name, value)),
            Seq::<char>::empty(),
            more,
        ),
{
    let a = seq!['-', '-'] + name + seq!['='] + value;
    assert((seq![a] + more)[0] == a);
    assert((seq![a] + more).drop_first() =~= more);
    let s = a.skip(2);
    assert(s =~= name + seq!['='] + value);
    assert(a.len() >= 3);
    assert(a[0] == '-' && a[1] == '-');
    if a =~= seq!['-', '-'] {
        assert(a.len() == 2);
    }
    assert(s[name.len() as int] == '=');
    lemma_char_index_is(s, '=', 0, name.len());
    assert(s.take(name.len() as int) =~= name);
    assert(s.skip(name.len() as int + 1) =~= value);
}

/// A call made on a lexer: `next` or `consume_arg`.
pub enum LexCall {
    Next,
    Consume,
}

/// What a call on a lexer gives: a token from `next`, or an argument from
/// `consume_arg`.
pub enum LexReply {
    Gave(Option<TokenView>),
    Took(Option<Seq<char>>),
}

/// The replies to a run of calls made on a lexer, from the short options
/// still to come and the arguments not yet read, and what is left of both
/// after the run.
pub open spec fn lex_script(pending: Seq<char>, args: Seq<Seq<char>>, calls: Seq<LexCall>) -> (
    Seq<LexReply>,
    Seq<char>,
    Seq<Seq<char>>,
)
    decreases calls.len(),
{
    if calls.len() == 0 {
        (seq![], pending, args)
    } else {
        let (reply, p, a) = match calls[0] {
            LexCall::Next => {
                let (t, p, a) = lex_next(pending, args);
                (LexReply::Gave(t), p, a)
            },
            LexCall::Consume => {
                let (r, p, a) = lex_consume(pending, args);
                (LexReply::Took(r), p, a)
            },
        };
        let (replies, p2, a2) = lex_script(p, a, calls.drop_first());
        (seq![reply] + replies, p2, a2)
    }
}

/// `n` calls of `next`.
pub open spec fn nexts(n: nat) -> Seq<LexCall> {
    Seq::new(n, |i: int| LexCall::Next)
}

/// The replies that read each character of `s` as a short option.
pub open spec fn short_replies(s: Seq<char>) -> Seq<LexReply>
    decreases s.len(),
{
    if s.len() == 0 {
        seq![]
    } else {
        seq![LexReply::Gave(Some(TokenView::Short(s[0])))] + short_replies(s.drop_first())
    }
}

proof fn lemma_pending_run(p: Seq<char>, more: Seq<Seq<char>>)
    ensures
        lex_script(p, more, nexts(p.len())) == (short_replies(p), Seq::<char>::empty(), more),
    decreases p.len(),
{
    if p.len() > 0 {
        assert(nexts(p.len()).drop_first() =~= nexts((p.len() - 1) as nat));
        lemma_pending_run(p.drop_first(), more);
    }
}

/// **Law.** A word `-` followed by `k` characters, the first of which is not
/// `-`, read with no short options pending, gives the next `k` calls of
/// `next` one short option per character, in order; then nothing of the
/// word is left and the following call reads the following word.
pub proof fn law_short_cluster_whole(s: Seq<char>, more: Seq<Seq<char>>)
    requires
        s.len() > 0,
        s[0] != '-',
    ensures
        lex_script(seq![], seq![seq!['-'] + s] + more, nexts(s.len())) == (
            short_replies(s),
            Seq::<char>::empty(),
            more,
        ),
{
    let c = s[0];
    let rest = s.drop_first();
    assert(seq!['-'] + s =~= seq!['-', c] + rest);
    law_short_cluster(c, rest, more);
    assert(nexts(s.len()).drop_first() =~= nexts(rest.len()));
    lemma_pending_run(rest, more);
}

/// **Law.** A word that does not start with `-` (the empty word too), read
/// with no short options pending, is the positional argument holding the
/// whole word, whatever it holds (an `=` included); nothing of it is left.
pub proof fn law_plain_word_is_positional(a: Seq<char>, more: Seq<Seq<char>>)
    requires
        a.len() == 0 || a[0] != '-',
    ensures
        lex_next(seq![], seq![a] + more) == (
            Some(TokenView::Positional(a)),
            Seq::<char>::empty(),
            more,
        ),
{
    assert((seq![a] + more)[0] == a);
    assert((seq![a] + more).drop_first() =~= more);
    if a.len() > 0 {
        assert(a != seq!['-']) by {
            assert(seq!['-'][0] == '-');
        }
        assert(a != seq!['-', '-']) by {
            assert(seq!['-', '-'][0] == '-');
        }
    }
}

/// `char_index_from` is the first occurrence from `i`.
pub proof fn lemma_char_index_is(s: Seq<char>, c: char, i: nat, k: nat)
    requires
        i <= k <= s.len(),
        k < s.len() ==> s[k as int] == c,
        forall|j: int| i <= j < k ==> s[j] != c,
    ensures
        char_index_from(s, c, i) == k,
    decreases k - i,
{
    if i < k {
        assert(s[i as int] != c);
        lemma_char_index_is(s, c, i + 1, k);
    }
}

} // verus!
