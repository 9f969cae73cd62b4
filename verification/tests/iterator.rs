use csvtools::argparse::iterator::{Arg, ArgIterator};
#[test]
fn iterator_empty() {
    let args = vec![];
    let mut iter = ArgIterator::new(args);
    assert_eq!(None, iter.next())
}

#[test]
fn iterator_positional() {
    let args = vec!["hello, my darling"];
    let mut iter = ArgIterator::new(args);
    assert_eq!(Arg::Positional("hello, my darling"), iter.next().unwrap());
    assert_eq!(None, iter.next())
}

#[test]
fn iterator_positionals() {
    let args = vec!["hello", "my", "darling"];
    let mut iter = ArgIterator::new(args);
    assert_eq!(Arg::Positional("hello"), iter.next().unwrap());
    assert_eq!(Arg::Positional("my"), iter.next().unwrap());
    assert_eq!(Arg::Positional("darling"), iter.next().unwrap());
    assert_eq!(None, iter.next())
}

#[test]
fn iterator_single_dash_is_positional() {
    let args = vec!["-"];
    let mut iter = ArgIterator::new(args);
    assert_eq!(Arg::Positional("-"), iter.next().unwrap());
    assert_eq!(None, iter.next())
}

#[test]
fn iterator_double_dash_is_positional() {
    let args = vec!["--"];
    let mut iter = ArgIterator::new(args);
    assert_eq!(Arg::Positional("--"), iter.next().unwrap());
    assert_eq!(None, iter.next())
}

#[test]
fn iterator_short() {
    let args = vec!["-a"];
    let mut iter = ArgIterator::new(args);
    assert_eq!(Arg::Short('a'), iter.next().unwrap());
    assert_eq!(None, iter.next())
}

#[test]
fn iterator_shorts_together() {
    let args = vec!["-abcd"];
    let mut iter = ArgIterator::new(args);
    assert_eq!(Arg::Short('a'), iter.next().unwrap());
    assert_eq!(Arg::Short('b'), iter.next().unwrap());
    assert_eq!(Arg::Short('c'), iter.next().unwrap());
    assert_eq!(Arg::Short('d'), iter.next().unwrap());
    assert_eq!(None, iter.next())
}

#[test]
fn iterator_shorts_separate() {
    let args = vec!["-a", "-b", "-c", "-d"];
    let mut iter = ArgIterator::new(args);
    assert_eq!(Arg::Short('a'), iter.next().unwrap());
    assert_eq!(Arg::Short('b'), iter.next().unwrap());
    assert_eq!(Arg::Short('c'), iter.next().unwrap());
    assert_eq!(Arg::Short('d'), iter.next().unwrap());
    assert_eq!(None, iter.next())
}

#[test]
fn iterator_long() {
    let args = vec!["--long-boy"];
    let mut iter = ArgIterator::new(args);
    assert_eq!(Arg::Long("long-boy"), iter.next().unwrap());
    assert_eq!(None, iter.next())
}

#[test]
fn iterator_longs() {
    let args = vec!["--long-boy", "--long boy", "--loooonger-boy"];
    let mut iter = ArgIterator::new(args);
    assert_eq!(Arg::Long("long-boy"), iter.next().unwrap());
    assert_eq!(Arg::Long("long boy"), iter.next().unwrap());
    assert_eq!(Arg::Long("loooonger-boy"), iter.next().unwrap());
    assert_eq!(None, iter.next())
}

#[test]
fn iterator_long_arg_together() {
    let args = vec!["--long-boy=Waluigi"];
    let mut iter = ArgIterator::new(args);
    assert_eq!(Arg::LongArg("long-boy", "Waluigi"), iter.next().unwrap());
    assert_eq!(None, iter.next())
}

#[test]
fn iterator_long_args_together() {
    let args = vec!["--fat-boy=Wario", "--attack=mario"];
    let mut iter = ArgIterator::new(args);
    assert_eq!(Arg::LongArg("fat-boy", "Wario"), iter.next().unwrap());
    assert_eq!(Arg::LongArg("attack", "mario"), iter.next().unwrap());
    assert_eq!(None, iter.next())
}

#[test]
fn iterator_all_one_word_types() {
    let args = vec!["-ab", "pos", "--fat-boy", "--attack=mario"];
    let mut iter = ArgIterator::new(args);

    assert_eq!(Arg::Short('a'), iter.next().unwrap());
    assert_eq!(Arg::Short('b'), iter.next().unwrap());
    assert_eq!(Arg::Positional("pos"), iter.next().unwrap());
    assert_eq!(Arg::Long("fat-boy"), iter.next().unwrap());
    assert_eq!(Arg::LongArg("attack", "mario"), iter.next().unwrap());
    assert_eq!(None, iter.next())
}

#[test]
fn iterator_consume_arg_on_empty_stays_none() {
    let args = vec![];
    let mut iter = ArgIterator::new(args);
    assert_eq!(None, iter.consume_arg());
    assert_eq!(None, iter.consume_arg());
    assert_eq!(iter.consume_arg(), None)
}

#[test]
fn iterator_consume_single_arg() {
    let args = vec!["hamburger"];
    let mut iter = ArgIterator::new(args);

    assert_eq!("hamburger", iter.consume_arg().unwrap());
    assert_eq!(None, iter.next())
}

#[test]
fn iterator_consume_intra_word_arg_after_one_short() {
    let args = vec!["-ibackup"];
    let mut iter = ArgIterator::new(args);

    assert_eq!(Arg::Short('i'), iter.next().unwrap());
    assert_eq!("backup", iter.consume_arg().unwrap());
    assert_eq!(None, iter.next())
}

#[test]
fn iterator_consume_intra_word_arg_after_many_shorts() {
    let args = vec!["-vabibackup"];
    let mut iter = ArgIterator::new(args);

    assert_eq!(Arg::Short('v'), iter.next().unwrap());
    assert_eq!(Arg::Short('a'), iter.next().unwrap());
    assert_eq!(Arg::Short('b'), iter.next().unwrap());
    assert_eq!(Arg::Short('i'), iter.next().unwrap());
    assert_eq!("backup", iter.consume_arg().unwrap());
    assert_eq!(None, iter.next())
}

#[test]
fn iterator_positional_after_consumed() {
    let args = vec!["-ibackup", "file", "--argname", "arg", "file2"];
    let mut iter = ArgIterator::new(args);

    assert_eq!(Arg::Short('i'), iter.next().unwrap());
    assert_eq!("backup", iter.consume_arg().unwrap());
    assert_eq!(Arg::Positional("file"), iter.next().unwrap());
    assert_eq!(Arg::Long("argname"), iter.next().unwrap());
    assert_eq!("arg", iter.consume_arg().unwrap());
    assert_eq!(Arg::Positional("file2"), iter.next().unwrap());
    assert_eq!(None, iter.next())
}

#[test]
fn iterator_consume_arg_starting_with_dash_or_dashes() {
    let args = vec!["-backup", "--arg"];
    let mut iter = ArgIterator::new(args);

    assert_eq!("-backup", iter.consume_arg().unwrap());
    assert_eq!("--arg", iter.consume_arg().unwrap());
    assert_eq!(None, iter.next())
}
