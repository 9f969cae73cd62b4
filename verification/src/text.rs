//! Building text: decimal and hexadecimal numbers, and the calls into std
//! that turn bytes and I/O errors into text and print a line.
use std::io::Write;
use vstd::prelude::*;

verus! {

/// `String::push` of std appends one character.
pub assume_specification[ String::push ](string: &mut String, ch: char)
    ensures
        final(string)@ == old(string)@.push(ch),
;

/// What `String::from_utf8_lossy` of std makes of these bytes: the text
/// they encode, with each invalid sequence replaced by U+FFFD.
pub uninterp spec fn utf8_lossy(bytes: Seq<u8>) -> Seq<char>;

/// Calls `String::from_utf8_lossy` of std. Its result is named
/// `utf8_lossy`; for valid UTF-8 it is the decoded text, as std's
/// documentation says. What it is for invalid input is left to the name.
#[verifier::external_body]
pub(crate) fn from_utf8_lossy(bytes: &[u8]) -> (res: String)
    ensures
        res@ == utf8_lossy(bytes@),
        vstd::utf8::valid_utf8(bytes@) ==> res@ == vstd::utf8::decode_utf8(bytes@),
{
    String::from_utf8_lossy(bytes).into_owned()
}

/// Calls the `Display` of std's `io::Error`. Its text comes from the
/// operating system for OS errors, so nothing is stated of it.
#[verifier::external_body]
pub(crate) fn io_error_text(e: &std::io::Error) -> (res: String) {
    format!("{}", e)
}

/// Writes `line` and a line end to standard output, as `println!` does,
/// through `writeln!` on std's `io::stdout()`. Nothing is stated: what
/// reaches the terminal is outside the program. A failed write is ignored
/// here, where `println!` would panic.
#[verifier::external_body]
pub(crate) fn print_line(line: &str) {
    let _ = writeln!(std::io::stdout(), "{}", line);
}

/// The character of the decimal digit `d`.
pub open spec fn digit_char(d: nat) -> char {
    (48 + d) as char
}

/// The decimal representation of `n`, without leading zeros.
pub open spec fn decimal(n: nat) -> Seq<char>
    decreases n,
{
    if n < 10 {
        seq![digit_char(n)]
    } else {
        decimal(n / 10).push(digit_char(n % 10))
    }
}

/// The character of the hexadecimal digit `d`, in upper case.
pub open spec fn hex_char(d: nat) -> char {
    if d < 10 {
        (48 + d) as char
    } else {
        (55 + d) as char
    }
}

/// The upper-case hexadecimal representation of `b`, without leading zeros.
pub open spec fn hex_upper(b: u8) -> Seq<char> {
    if b < 16 {
        seq![hex_char(b as nat)]
    } else {
        seq![hex_char((b / 16) as nat), hex_char((b % 16) as nat)]
    }
}

/// Appends the decimal representation of `n`.
pub fn push_decimal(s: &mut String, n: usize)
    ensures
        final(s)@ == old(s)@ + decimal(n as nat),
    decreases n,
{
    if n >= 10 {
        push_decimal(s, n / 10);
    }
    let d: u8 = (n % 10) as u8;
    let c = (48u8 + d) as char;
    assert(c == digit_char((n % 10) as nat));
    s.push(c);
    assert(s@ =~= old(s)@ + decimal(n as nat));
}

fn hex_digit(d: u8) -> (c: char)
    requires
        d < 16,
    ensures
        c == hex_char(d as nat),
{
    if d < 10 {
        (48u8 + d) as char
    } else {
        (55u8 + d) as char
    }
}

/// Appends the upper-case hexadecimal representation of `b`.
pub fn push_hex_upper(s: &mut String, b: u8)
    ensures
        final(s)@ == old(s)@ + hex_upper(b),
{
    if b < 16 {
        s.push(hex_digit(b));
    } else {
        s.push(hex_digit(b / 16));
        s.push(hex_digit(b % 16));
    }
    assert(s@ =~= old(s)@ + hex_upper(b));
}

/// Appends the character whose code is the byte `b` (Latin-1).
pub fn push_byte_char(s: &mut String, b: u8)
    ensures
        final(s)@ == old(s)@.push(b as char),
{
    s.push(b as char);
}

/// Appends `t`.
pub fn push_str(s: &mut String, t: &str)
    ensures
        final(s)@ == old(s)@ + t@,
{
    s.append(t);
}

} // verus!
