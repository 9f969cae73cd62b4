use csvtools::argparse::FlagSet;
use csvtools::common::argparse::arglex::{ArgLexer, ArgToken};
use csvtools::common::argparse::{Arg, ArgParser};
use csvtools::common::util::get_source_and_destination;

fn describe(a: Option<Arg>) -> String {
    match a {
        None => "none".to_string(),
        Some(Arg::Short(c)) => format!("short {}", c),
        Some(Arg::Long(s)) => format!("long {}", s),
        Some(Arg::Positional(s)) => format!("pos {}", s),
    }
}

fn read_error(p: &mut ArgParser) -> &'static str {
    match p.read() {
        Err(e) => e,
        Ok(a) => panic!("expected an error, got {}", describe(a)),
    }
}

#[test]
fn parser_long_option_value_waits() {
    let mut p = ArgParser::new(vec!["--color=blue", "file"]);
    assert_eq!(describe(p.read().unwrap()), "long color");
    assert_eq!(read_error(&mut p), "expected argument");
    assert_eq!(read_error(&mut p), "expected argument");
    assert_eq!(p.consume_arg().unwrap(), "blue");
    assert_eq!(describe(p.read().unwrap()), "pos file");
    assert_eq!(describe(p.read().unwrap()), "none");
    assert_eq!(p.consume_arg().unwrap_err(), "expected argument");
}

#[test]
fn parser_reads_like_lexer() {
    let mut p = ArgParser::new(vec!["-ab", "--long", "x", "-"]);
    assert_eq!(describe(p.read().unwrap()), "short a");
    assert_eq!(describe(p.read().unwrap()), "short b");
    assert_eq!(describe(p.read().unwrap()), "long long");
    assert_eq!(p.consume_arg().unwrap(), "x");
    assert_eq!(describe(p.read().unwrap()), "pos -");
    assert_eq!(describe(p.read().unwrap()), "none");
}

#[test]
fn lexer_splits_long_argument_at_first_equals() {
    let mut l = ArgLexer::new(vec!["--k=a=b", "--=v", "--e="]);
    assert_eq!(l.next(), Some(ArgToken::LongArg("k", "a=b")));
    assert_eq!(l.next(), Some(ArgToken::LongArg("", "v")));
    assert_eq!(l.next(), Some(ArgToken::LongArg("e", "")));
    assert_eq!(l.next(), None);
    assert_eq!(l.next(), None);
}

#[test]
fn lexer_short_cluster_with_unicode() {
    let mut l = ArgLexer::new(vec!["-éx", ""]);
    assert_eq!(l.next(), Some(ArgToken::Short('é')));
    assert_eq!(l.next(), Some(ArgToken::Short('x')));
    assert_eq!(l.next(), Some(ArgToken::Positional("")));
    assert_eq!(l.next(), None);
}

#[test]
fn lexer_dash_in_cluster_is_short() {
    let mut l = ArgLexer::new(vec!["-a-"]);
    assert_eq!(l.next(), Some(ArgToken::Short('a')));
    assert_eq!(l.next(), Some(ArgToken::Short('-')));
    assert_eq!(l.next(), None);
}

#[test]
fn flags_get_numbers_in_order() {
    let mut set = FlagSet::new();
    let _a = set.bool(Some('a'), None);
    let _b = set.bool(Some('b'), None);
    let _n = set.arg::<u32, ()>(Some(b'n'), None);
    let _c = set.arg::<String, ()>(None, Some("count"));
}

#[test]
fn source_and_destination() {
    assert_eq!(get_source_and_destination("a:b"), ("a", "b"));
    assert_eq!(get_source_and_destination("a"), ("a", "a"));
    assert_eq!(get_source_and_destination("a:b:c"), ("a", "b"));
    assert_eq!(get_source_and_destination(":x"), ("", "x"));
    assert_eq!(get_source_and_destination("a:"), ("a", ""));
    assert_eq!(get_source_and_destination("é:ü"), ("é", "ü"));
}
