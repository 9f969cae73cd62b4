//! An iterator over command-line arguments that yields short options, long
//! options (with or without an `=` argument) and positional arguments.
use vstd::prelude::*;
use vstd::string::StrSliceExecFns;

use crate::common::argparse::arglex::{
    classify_exec, lex_consume, lex_next, strs_view, ArgToken, TokenView,
};

verus! {

/// An argument as the iterator yields it.
#[derive(PartialEq, Eq, Debug)]
pub enum Arg<'a> {
    Short(char),
    Long(&'a str),
    LongArg(&'a str, &'a str),
    Positional(&'a str),
}

impl<'a> View for Arg<'a> {
    type V = TokenView;

    open spec fn view(&self) -> TokenView {
        match self {
            Arg::Short(c) => TokenView::Short(*c),
            Arg::Long(s) => TokenView::Long(s@),
            Arg::LongArg(p, a) => TokenView::LongArg(p@, a@),
            Arg::Positional(s) => TokenView::Positional(s@),
        }
    }
}

/// The view of an optional argument.
pub open spec fn opt_arg_view(a: Option<Arg>) -> Option<TokenView> {
    match a {
        Some(a) => Some(a@),
        None => None,
    }
}

pub struct ArgIterator<'a> {
    args: Vec<&'a str>,
    next_arg: usize,
    remaining: Option<&'a str>,
}

impl<'a> ArgIterator<'a> {
    #[verifier::type_invariant]
    spec fn inv(&self) -> bool {
        self.next_arg <= self.args@.len()
    }

    /// The short options still to come in the current cluster.
    pub closed spec fn pending(&self) -> Seq<char> {
        match self.remaining {
            Some(r) => r@,
            None => seq![],
        }
    }

    /// The arguments not yet read.
    pub closed spec fn args_left(&self) -> Seq<Seq<char>> {
        strs_view(self.args@).skip(self.next_arg as int)
    }

    pub fn new(args: Vec<&'a str>) -> (res: Self)
        ensures
            res.pending() == Seq::<char>::empty(),
            res.args_left() == strs_view(args@),
    {
        let res = ArgIterator { args, next_arg: 0, remaining: None };
        assert(res.args_left() =~= strs_view(res.args@));
        res
    }

    /// Takes the argument of an option: the rest of the current cluster of
    /// short options if it is not empty, or else the next argument.
    pub fn consume_arg(&mut self) -> (res: Option<&'a str>)
        ensures
            ({
                let (r, p, args) = lex_consume(old(self).pending(), old(self).args_left());
                &&& match res {
                    Some(s) => r == Some(s@),
                    None => r is None,
                }
                &&& final(self).pending() == p
                &&& final(self).args_left() == args
            }),
    {
        proof {
            use_type_invariant(&*self);
        }
        let taken = self.remaining;
        self.remaining = None;
        if let Some(arg_chars) = taken {
            if arg_chars.unicode_len() != 0 {
                return Some(arg_chars);
            }
        }
        if self.next_arg >= self.args.len() {
            None
        } else {
            let a = self.args[self.next_arg];
            self.next_arg = self.next_arg + 1;
            assert(self.args_left() =~= old(self).args_left().drop_first());
            Some(a)
        }
    }

    /// Yields the next argument.
    pub fn next(&mut self) -> (res: Option<Arg<'a>>)
        ensures
            ({
                let (t, p, args) = lex_next(old(self).pending(), old(self).args_left());
                &&& opt_arg_view(res) == t
                &&& final(self).pending() == p
                &&& final(self).args_left() == args
            }),
    {
        proof {
            use_type_invariant(&*self);
        }
        if let Some(remaining) = self.remaining {
            let n = remaining.unicode_len();
            if n > 0 {
                let c = remaining.get_char(0);
                self.remaining = Some(remaining.substring_char(1, n));
                assert(self.pending() =~= old(self).pending().drop_first());
                return Some(Arg::Short(c));
            }
        }
        if self.next_arg >= self.args.len() {
            return None;
        }
        let a = self.args[self.next_arg];
        self.next_arg = self.next_arg + 1;
        assert(self.args_left() =~= old(self).args_left().drop_first());
        let (t, rest) = classify_exec(a);
        self.remaining = rest;
        Some(
            match t {
                ArgToken::Short(c) => Arg::Short(c),
                ArgToken::Long(s) => Arg::Long(s),
                ArgToken::LongArg(p, v) => Arg::LongArg(p, v),
                ArgToken::Positional(s) => Arg::Positional(s),
            },
        )
    }
}

/// **Law.** An `ArgIterator` yields a variant with a value exactly when
/// an `ArgToken` of the same variant and value has the same view.
pub proof fn law_arg_matches_token(a: Arg, t: ArgToken)
    ensures
        (a@ == t@) == match (a, t) {
            (Arg::Short(x), ArgToken::Short(y)) => x == y,
            (Arg::Long(x), ArgToken::Long(y)) => x@ == y@,
            (Arg::LongArg(x, v), ArgToken::LongArg(y, w)) => x@ == y@ && v@ == w@,
            (Arg::Positional(x), ArgToken::Positional(y)) => x@ == y@,
            _ => false,
        },
{
}

} // verus!
