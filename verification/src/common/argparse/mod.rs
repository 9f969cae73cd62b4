//! A parser of command-line arguments on top of the lexer: a long option
//! written `--name=value` reads as the option `name`, whose argument
//! `value` must then be taken before anything else is read.
pub mod arglex;

use vstd::prelude::*;

use arglex::{law_long_with_argument, lex_consume, lex_next, ArgLexer, ArgToken, TokenView};

verus! {

/// A parsed argument.
pub enum Arg<'a> {
    Short(char),
    Long(&'a str),
    Positional(&'a str),
}

/// What a parsed argument is, over the characters of its parts.
pub enum ArgView {
    Short(char),
    Long(Seq<char>),
    Positional(Seq<char>),
}

impl<'a> View for Arg<'a> {
    type V = ArgView;

    open spec fn view(&self) -> ArgView {
        match self {
            Arg::Short(c) => ArgView::Short(*c),
            Arg::Long(s) => ArgView::Long(s@),
            Arg::Positional(s) => ArgView::Positional(s@),
        }
    }
}

/// The parsed argument that a token stands for.
pub open spec fn token_arg(t: TokenView) -> ArgView {
    match t {
        TokenView::Short(c) => ArgView::Short(c),
        TokenView::Long(s) => ArgView::Long(s),
        TokenView::LongArg(p, _) => ArgView::Long(p),
        TokenView::Positional(s) => ArgView::Positional(s),
    }
}

/// The argument of a `--name=value` token that is waiting to be taken.
pub open spec fn token_pending_arg(t: TokenView) -> Option<Seq<char>> {
    match t {
        TokenView::LongArg(_, a) => Some(a),
        _ => None,
    }
}

/// The error of reading while an option's argument waits, or of taking an
/// argument where there is none.
pub open spec fn expected_argument() -> Seq<char> {
    "expected argument"@
}

pub struct ArgParser<'a> {
    inner: ArgLexer<'a>,
    long_arg: Option<&'a str>,
}

impl<'a> ArgParser<'a> {
    /// The lexer underneath.
    pub closed spec fn lexer(&self) -> ArgLexer<'a> {
        self.inner
    }

    /// The argument of a `--name=value` option that waits to be taken.
    pub closed spec fn waiting(&self) -> Option<Seq<char>> {
        match self.long_arg {
            Some(a) => Some(a@),
            None => None,
        }
    }

    pub fn new(args: Vec<&'a str>) -> (res: Self)
        ensures
            res.lexer().pending() == Seq::<char>::empty(),
            res.lexer().args_left() == arglex::strs_view(args@),
            res.waiting() is None,
    {
        ArgParser { inner: ArgLexer::new(args), long_arg: None }
    }

    /// Takes the argument of the option just read: the value of a
    /// `--name=value` option if one waits, or else what the lexer takes.
    pub fn consume_arg(&mut self) -> (res: Result<&'a str, &'static str>)
        ensures
            match old(self).waiting() {
                Some(a) => res matches Ok(s) && s@ == a && final(self).waiting() is None
                    && final(self).lexer() == old(self).lexer(),
                None => ({
                    let (r, p, args) = lex_consume(
                        old(self).lexer().pending(),
                        old(self).lexer().args_left(),
                    );
                    &&& final(self).waiting() is None
                    &&& final(self).lexer().pending() == p
                    &&& final(self).lexer().args_left() == args
                    &&& match r {
                        Some(x) => res matches Ok(s) && s@ == x,
                        None => res matches Err(e) && e@ == expected_argument(),
                    }
                }),
            },
    {
        if let Some(arg) = self.long_arg {
            self.long_arg = None;
            Ok(arg)
        } else {
            match self.inner.consume_arg() {
                Some(a) => Ok(a),
                None => Err("expected argument"),
            }
        }
    }

    /// Reads the next argument. While the value of a `--name=value` option
    /// waits to be taken, this fails and changes nothing.
    pub fn read(&mut self) -> (res: Result<Option<Arg<'a>>, &'static str>)
        ensures
            old(self).waiting() is Some ==> (res matches Err(e) && e@ == expected_argument()
                && *final(self) == *old(self)),
            old(self).waiting() is None ==> ({
                let (t, p, args) = lex_next(old(self).lexer().pending(), old(self).lexer().args_left());
                &&& final(self).lexer().pending() == p
                &&& final(self).lexer().args_left() == args
                &&& match t {
                    None => res matches Ok(None) && final(self).waiting() is None,
                    Some(tok) => {
                        &&& final(self).waiting() == token_pending_arg(tok)
                        &&& res matches Ok(Some(a)) && a@ == token_arg(tok)
                    },
                }
            }),
    {
        if self.long_arg.is_some() {
            return Err("expected argument");
        }
        let token = match self.inner.next() {
            Some(t) => t,
            None => {
                return Ok(None);
            },
        };
        match token {
            ArgToken::Short(c) => Ok(Some(Arg::Short(c))),
            ArgToken::Long(s) => Ok(Some(Arg::Long(s))),
            ArgToken::Positional(s) => Ok(Some(Arg::Positional(s))),
            ArgToken::LongArg(param, arg) => {
                self.long_arg = Some(arg);
                Ok(Some(Arg::Long(param)))
            },
        }
    }
}

/// **Law.** Reading `--name=value` gives the long option `name` and leaves
/// `value` waiting: until it is taken, reading fails with "expected
/// argument" and changes nothing (see `ArgParser::read`); taking the
/// argument gives `value` (see `ArgParser::consume_arg`).
pub proof fn law_long_option_value_waits(name: Seq<char>, value: Seq<char>, more: Seq<Seq<char>>)
    requires
        forall|i: int| 0 <= i < name.len() ==> name[i] != '=',
    ensures
        ({
            let (t, p, rest) = lex_next(seq![], seq![seq!['-', '-'] + name + seq!['='] + value] + more);
            &&& t matches Some(tok) && token_arg(tok) == ArgView::Long(name) && token_pending_arg(tok)
                == Some(value)
            &&& p.len() == 0
            &&& rest == more
        }),
{
    law_long_with_argument(name, value, more);
}

} // verus!
