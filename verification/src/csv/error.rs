use vstd::prelude::*;
use vstd::string::StringExecFns;

use crate::text::{
    decimal, hex_upper, io_error_text, push_byte_char, push_decimal, push_hex_upper, push_str,
};

verus! {

/// An I/O error of std, carried through the library unchanged.
#[verifier::external_type_specification]
#[verifier::external_body]
pub struct ExIoError(std::io::Error);

/// What went wrong while reading CSV data.
#[derive(Debug)]
pub enum ErrorKind {
    FieldCount { want: usize, got: usize },
    IO(std::io::Error),
    UnclosedQuote,
    InvalidByte(u8),
    DoubleQuoteInUnescapedField,
    NonCommaAfterQuote(u8),
}

/// A CSV error, with the record, the field number and the field name where
/// it happened, as far as they are known.
#[derive(Debug)]
pub struct Error {
    pub kind: ErrorKind,
    pub record: Option<usize>,
    pub field: Option<usize>,
    pub field_name: Option<String>,
}


/// The message of an error kind; `io_text` is the message of the I/O error
/// that an `IO` kind carries.
pub open spec fn kind_message(kind: ErrorKind, io_text: Seq<char>) -> Seq<char> {
    match kind {
        ErrorKind::FieldCount { want, got } => "expected `"@ + decimal(want as nat)
            + "` fields but found `"@ + decimal(got as nat) + "`"@,
        ErrorKind::IO(_) => io_text,
        ErrorKind::UnclosedQuote => "unclosed quote"@,
        ErrorKind::InvalidByte(b) => if b < 128 {
            "invalid character `"@ + seq![b as char] + "`"@
        } else {
            "unexpected byte `0x"@ + hex_upper(b) + "`"@
        },
        ErrorKind::DoubleQuoteInUnescapedField => "double quote in unescaped field"@,
        ErrorKind::NonCommaAfterQuote(c) => "expected comma or newline after double quote but found `"@
            + seq![c as char] + "`"@,
    }
}

/// The message of an error whose kind reads `kind_text`: the kind, behind
/// the record number and the field (1-based number, or name) where known.
pub open spec fn error_message(e: Error, kind_text: Seq<char>) -> Seq<char> {
    match (e.record, e.field, e.field_name) {
        (None, None, None) => kind_text,
        (None, Some(f), None) => "field `"@ + decimal((f + 1) as nat) + "`: "@ + kind_text,
        (None, _, Some(name)) => "field `"@ + name@ + "`: "@ + kind_text,
        (Some(r), None, None) => "record `"@ + decimal(r as nat) + "`: "@ + kind_text,
        (Some(r), Some(f), None) => "record `"@ + decimal(r as nat) + "`: field: `"@ + decimal(
            (f + 1) as nat,
        ) + "`: "@ + kind_text,
        (Some(r), _, Some(name)) => "record `"@ + decimal(r as nat) + "`: field: `"@ + name@
            + "`: "@ + kind_text,
    }
}

/// The message can be formed: a field number shown 1-based fits in usize.
pub open spec fn message_fits(e: Error) -> bool {
    e.field_name is None ==> (e.field matches Some(f) ==> f < usize::MAX)
}

impl ErrorKind {
    /// The message of this kind, where an `IO` kind reads `io_text`.
    pub fn render(&self, io_text: &str) -> (res: String)
        ensures
            res@ == kind_message(*self, io_text@),
    {
        match self {
            ErrorKind::FieldCount { want, got } => {
                let mut s = String::from_str("expected `");
                push_decimal(&mut s, *want);
                push_str(&mut s, "` fields but found `");
                push_decimal(&mut s, *got);
                push_str(&mut s, "`");
                s
            },
            ErrorKind::IO(_) => String::from_str(io_text),
            ErrorKind::UnclosedQuote => String::from_str("unclosed quote"),
            ErrorKind::InvalidByte(b) => {
                if *b < 128 {
                    let mut s = String::from_str("invalid character `");
                    push_byte_char(&mut s, *b);
                    push_str(&mut s, "`");
                    s
                } else {
                    let mut s = String::from_str("unexpected byte `0x");
                    push_hex_upper(&mut s, *b);
                    push_str(&mut s, "`");
                    s
                }
            },
            ErrorKind::DoubleQuoteInUnescapedField => String::from_str(
                "double quote in unescaped field",
            ),
            ErrorKind::NonCommaAfterQuote(c) => {
                let mut s = String::from_str(
                    "expected comma or newline after double quote but found `",
                );
                push_byte_char(&mut s, *c);
                push_str(&mut s, "`");
                s
            },
        }
    }

    /// The message of this kind; for an `IO` kind, the message of its
    /// I/O error.
    pub fn to_string(&self) -> (res: String)
        ensures
            exists|io_text: Seq<char>| res@ == kind_message(*self, io_text),
    {
        match self {
            ErrorKind::IO(e) => {
                let t = io_error_text(e);
                let res = self.render(t.as_str());
                assert(res@ == kind_message(*self, t@));
                res
            },
            _ => {
                let res = self.render("");
                assert(res@ == kind_message(*self, ""@));
                res
            },
        }
    }
}

impl Error {
    /// The error has this kind and no position.
    pub open spec fn is_plain(self, kind: ErrorKind) -> bool {
        &&& self.kind == kind
        &&& self.record is None
        &&& self.field is None
        &&& self.field_name is None
    }

    /// The message of this error, where its kind reads `kind_text`.
    pub fn render(&self, kind_text: &str) -> (res: String)
        requires
            message_fits(*self),
        ensures
            res@ == error_message(*self, kind_text@),
    {
        match (self.record, self.field, &self.field_name) {
            (None, None, None) => String::from_str(kind_text),
            (None, Some(f), None) => {
                let mut s = String::from_str("field `");
                push_decimal(&mut s, f + 1);
                push_str(&mut s, "`: ");
                push_str(&mut s, kind_text);
                s
            },
            (None, _, Some(name)) => {
                let mut s = String::from_str("field `");
                push_str(&mut s, name.as_str());
                push_str(&mut s, "`: ");
                push_str(&mut s, kind_text);
                s
            },
            (Some(r), None, None) => {
                let mut s = String::from_str("record `");
                push_decimal(&mut s, r);
                push_str(&mut s, "`: ");
                push_str(&mut s, kind_text);
                s
            },
            (Some(r), Some(f), None) => {
                let mut s = String::from_str("record `");
                push_decimal(&mut s, r);
                push_str(&mut s, "`: field: `");
                push_decimal(&mut s, f + 1);
                push_str(&mut s, "`: ");
                push_str(&mut s, kind_text);
                s
            },
            (Some(r), _, Some(name)) => {
                let mut s = String::from_str("record `");
                push_decimal(&mut s, r);
                push_str(&mut s, "`: field: `");
                push_str(&mut s, name.as_str());
                push_str(&mut s, "`: ");
                push_str(&mut s, kind_text);
                s
            },
        }
    }

    /// The message of this error.
    pub fn to_string(&self) -> (res: String)
        requires
            message_fits(*self),
        ensures
            exists|io_text: Seq<char>|
                res@ == error_message(*self, kind_message(self.kind, io_text)),
    {
        let k = self.kind.to_string();
        let res = self.render(k.as_str());
        let ghost t = choose|io_text: Seq<char>| k@ == kind_message(self.kind, io_text);
        assert(res@ == error_message(*self, kind_message(self.kind, t)));
        res
    }

    pub fn new(kind: ErrorKind) -> (res: Self)
        ensures
            res.is_plain(kind),
    {
        Error { kind, record: None, field: None, field_name: None }
    }

    /// Sets the record number, and nothing else.
    pub fn record_num(self, record_num: usize) -> (res: Self)
        ensures
            res.kind == self.kind,
            res.record == Some(record_num),
            res.field == self.field,
            res.field_name == self.field_name,
    {
        let mut s = self;
        s.record = Some(record_num);
        s
    }

    /// Sets the field number, and nothing else.
    pub fn field_num(self, field_num: usize) -> (res: Self)
        ensures
            res.kind == self.kind,
            res.record == self.record,
            res.field == Some(field_num),
            res.field_name == self.field_name,
    {
        let mut s = self;
        s.field = Some(field_num);
        s
    }

    /// Sets the field name, and nothing else.
    pub fn field_name(self, field_name: String) -> (res: Self)
        ensures
            res.kind == self.kind,
            res.record == self.record,
            res.field == self.field,
            res.field_name == Some(field_name),
    {
        let mut s = self;
        s.field_name = Some(field_name);
        s
    }
}

impl From<ErrorKind> for Error {
    fn from(value: ErrorKind) -> (res: Self) {
        Error::new(value)
    }
}

impl vstd::std_specs::convert::FromSpecImpl<ErrorKind> for Error {
    open spec fn obeys_from_spec() -> bool {
        true
    }

    open spec fn from_spec(v: ErrorKind) -> Self {
        Error { kind: v, record: None, field: None, field_name: None }
    }
}

impl From<std::io::Error> for Error {
    fn from(value: std::io::Error) -> (res: Self) {
        Error::new(ErrorKind::IO(value))
    }
}

impl vstd::std_specs::convert::FromSpecImpl<std::io::Error> for Error {
    open spec fn obeys_from_spec() -> bool {
        true
    }

    open spec fn from_spec(v: std::io::Error) -> Self {
        Error { kind: ErrorKind::IO(v), record: None, field: None, field_name: None }
    }
}

} // verus!
